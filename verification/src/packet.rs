//! The framed wire codec of the peer protocol.
//!
//! Every message is a 4-byte big-endian length prefix followed by that many
//! bytes of a self-describing encoding of `MirrorPacket`: the variant tag is
//! the first byte, integers are big-endian, and every sequence is preceded
//! by its element count.  The encoder and decoder are both written against
//! one pair of specification functions, `spec_packet_bytes` and
//! `spec_parse_packet`, and `lemma_packet_round_trip` proves that decoding
//! an encoded packet gives the packet back.

use vstd::prelude::*;

use vstd::utf8::encode_utf8;
use vstd::utf8::decode_utf8;
use vstd::utf8::valid_utf8;
use vstd::utf8::encode_utf8_valid_utf8;
use vstd::utf8::encode_utf8_decode_utf8;

use crate::image::CHANNEL_ONE;
use crate::image::Pixel;
use crate::image::Tile;
use crate::render_backend::TileRenderWork;

verus! {

// ---------------------------------------------------------------------------
// Big-endian scalars
// ---------------------------------------------------------------------------

pub open spec fn spec_u16_be(v: u16) -> Seq<u8> {
    seq![(v >> 8) as u8, v as u8]
}

pub open spec fn spec_read_u16(b0: u8, b1: u8) -> u16 {
    (b0 as u16) << 8 | (b1 as u16)
}

proof fn lemma_u16_roundtrip(v: u16)
    ensures
        spec_read_u16((v >> 8) as u8, v as u8) == v,
{
    assert((((v >> 8) as u8) as u16) << 8 | ((v as u8) as u16) == v) by (bit_vector);
}

pub open spec fn spec_u32_be(v: u32) -> Seq<u8> {
    seq![(v >> 24) as u8, (v >> 16) as u8, (v >> 8) as u8, v as u8]
}

pub open spec fn spec_read_u32(b0: u8, b1: u8, b2: u8, b3: u8) -> u32 {
    (b0 as u32) << 24 | (b1 as u32) << 16 | (b2 as u32) << 8 | (b3 as u32)
}

proof fn lemma_u32_roundtrip(v: u32)
    ensures
        spec_read_u32((v >> 24) as u8, (v >> 16) as u8, (v >> 8) as u8, v as u8) == v,
{
    assert((((v >> 24) as u8) as u32) << 24 | (((v >> 16) as u8) as u32) << 16 | (((v >> 8) as u8)
        as u32) << 8 | ((v as u8) as u32) == v) by (bit_vector);
}

pub open spec fn spec_u64_be(v: u64) -> Seq<u8> {
    seq![
        (v >> 56) as u8,
        (v >> 48) as u8,
        (v >> 40) as u8,
        (v >> 32) as u8,
        (v >> 24) as u8,
        (v >> 16) as u8,
        (v >> 8) as u8,
        v as u8,
    ]
}

pub open spec fn spec_read_u64(b: Seq<u8>) -> u64 {
    (b[0] as u64) << 56 | (b[1] as u64) << 48 | (b[2] as u64) << 40 | (b[3] as u64) << 32 | (
    b[4] as u64) << 24 | (b[5] as u64) << 16 | (b[6] as u64) << 8 | (b[7] as u64)
}

proof fn lemma_u64_roundtrip(v: u64)
    ensures
        spec_read_u64(spec_u64_be(v)) == v,
{
    assert((((v >> 56) as u8) as u64) << 56 | (((v >> 48) as u8) as u64) << 48 | (((v >> 40) as u8)
        as u64) << 40 | (((v >> 32) as u8) as u64) << 32 | (((v >> 24) as u8) as u64) << 24 | (((v
        >> 16) as u8) as u64) << 16 | (((v >> 8) as u8) as u64) << 8 | ((v as u8) as u64) == v)
        by (bit_vector);
}

pub open spec fn spec_u128_be(v: u128) -> Seq<u8> {
    seq![
        (v >> 120) as u8,
        (v >> 112) as u8,
        (v >> 104) as u8,
        (v >> 96) as u8,
        (v >> 88) as u8,
        (v >> 80) as u8,
        (v >> 72) as u8,
        (v >> 64) as u8,
        (v >> 56) as u8,
        (v >> 48) as u8,
        (v >> 40) as u8,
        (v >> 32) as u8,
        (v >> 24) as u8,
        (v >> 16) as u8,
        (v >> 8) as u8,
        v as u8,
    ]
}

pub open spec fn spec_read_u128(b: Seq<u8>) -> u128 {
    (b[0] as u128) << 120 | (b[1] as u128) << 112 | (b[2] as u128) << 104 | (b[3] as u128) << 96 | (
    b[4] as u128) << 88 | (b[5] as u128) << 80 | (b[6] as u128) << 72 | (b[7] as u128) << 64 | (
    b[8] as u128) << 56 | (b[9] as u128) << 48 | (b[10] as u128) << 40 | (b[11] as u128) << 32 | (
    b[12] as u128) << 24 | (b[13] as u128) << 16 | (b[14] as u128) << 8 | (b[15] as u128)
}

proof fn lemma_u128_roundtrip(v: u128)
    ensures
        spec_read_u128(spec_u128_be(v)) == v,
{
    assert((((v >> 120) as u8) as u128) << 120 | (((v >> 112) as u8) as u128) << 112 | (((v >> 104)
        as u8) as u128) << 104 | (((v >> 96) as u8) as u128) << 96 | (((v >> 88) as u8) as u128)
        << 88 | (((v >> 80) as u8) as u128) << 80 | (((v >> 72) as u8) as u128) << 72 | (((v >> 64)
        as u8) as u128) << 64 | (((v >> 56) as u8) as u128) << 56 | (((v >> 48) as u8) as u128)
        << 48 | (((v >> 40) as u8) as u128) << 40 | (((v >> 32) as u8) as u128) << 32 | (((v >> 24)
        as u8) as u128) << 24 | (((v >> 16) as u8) as u128) << 16 | (((v >> 8) as u8) as u128) << 8
        | ((v as u8) as u128) == v) by (bit_vector);
}

// ---------------------------------------------------------------------------
// Specification-level parsers for scalars
// ---------------------------------------------------------------------------

pub open spec fn spec_parse_u8(s: Seq<u8>, pos: int) -> Option<(u8, int)> {
    if 0 <= pos && pos + 1 <= s.len() {
        Some((s[pos], pos + 1))
    } else {
        None
    }
}

pub open spec fn spec_parse_u16(s: Seq<u8>, pos: int) -> Option<(u16, int)> {
    if 0 <= pos && pos + 2 <= s.len() {
        Some((spec_read_u16(s[pos], s[pos + 1]), pos + 2))
    } else {
        None
    }
}

pub open spec fn spec_parse_u32(s: Seq<u8>, pos: int) -> Option<(u32, int)> {
    if 0 <= pos && pos + 4 <= s.len() {
        Some((spec_read_u32(s[pos], s[pos + 1], s[pos + 2], s[pos + 3]), pos + 4))
    } else {
        None
    }
}

pub open spec fn spec_parse_u64(s: Seq<u8>, pos: int) -> Option<(u64, int)> {
    if 0 <= pos && pos + 8 <= s.len() {
        Some((spec_read_u64(s.subrange(pos, pos + 8)), pos + 8))
    } else {
        None
    }
}

pub open spec fn spec_parse_u128(s: Seq<u8>, pos: int) -> Option<(u128, int)> {
    if 0 <= pos && pos + 16 <= s.len() {
        Some((spec_read_u128(s.subrange(pos, pos + 16)), pos + 16))
    } else {
        None
    }
}

/// A `usize` travels as a 64-bit value; one that does not fit this
/// machine's word is rejected.
pub open spec fn spec_parse_usize(s: Seq<u8>, pos: int) -> Option<(usize, int)> {
    match spec_parse_u64(s, pos) {
        None => None,
        Some((v, p2)) => if v <= usize::MAX {
            Some((v as usize, p2))
        } else {
            None
        },
    }
}

// ---------------------------------------------------------------------------
// Exact-parse lemmas for scalars
// ---------------------------------------------------------------------------

proof fn lemma_parse_u16_exact(s: Seq<u8>, pos: int, v: u16)
    requires
        0 <= pos,
        pos + 2 <= s.len(),
        s.subrange(pos, pos + 2) == spec_u16_be(v),
    ensures
        spec_parse_u16(s, pos) == Some((v, pos + 2)),
{
    assert(s[pos] == spec_u16_be(v)[0] && s[pos + 1] == spec_u16_be(v)[1]) by {
        assert(s.subrange(pos, pos + 2)[0] == s[pos]);
        assert(s.subrange(pos, pos + 2)[1] == s[pos + 1]);
    }
    lemma_u16_roundtrip(v);
}

proof fn lemma_parse_u32_exact(s: Seq<u8>, pos: int, v: u32)
    requires
        0 <= pos,
        pos + 4 <= s.len(),
        s.subrange(pos, pos + 4) == spec_u32_be(v),
    ensures
        spec_parse_u32(s, pos) == Some((v, pos + 4)),
{
    assert forall|i: int| 0 <= i < 4 implies s[pos + i] == spec_u32_be(v)[i] by {
        assert(s.subrange(pos, pos + 4)[i] == s[pos + i]);
    }
    lemma_u32_roundtrip(v);
}

proof fn lemma_parse_u64_exact(s: Seq<u8>, pos: int, v: u64)
    requires
        0 <= pos,
        pos + 8 <= s.len(),
        s.subrange(pos, pos + 8) == spec_u64_be(v),
    ensures
        spec_parse_u64(s, pos) == Some((v, pos + 8)),
{
    lemma_u64_roundtrip(v);
}

proof fn lemma_parse_u128_exact(s: Seq<u8>, pos: int, v: u128)
    requires
        0 <= pos,
        pos + 16 <= s.len(),
        s.subrange(pos, pos + 16) == spec_u128_be(v),
    ensures
        spec_parse_u128(s, pos) == Some((v, pos + 16)),
{
    lemma_u128_roundtrip(v);
}

proof fn lemma_parse_usize_exact(s: Seq<u8>, pos: int, v: usize)
    requires
        0 <= pos,
        pos + 8 <= s.len(),
        s.subrange(pos, pos + 8) == spec_u64_be(v as u64),
    ensures
        spec_parse_usize(s, pos) == Some((v, pos + 8)),
{
    lemma_parse_u64_exact(s, pos, v as u64);
}

// ---------------------------------------------------------------------------
// Executable scalar writers and readers
// ---------------------------------------------------------------------------

fn write_u16(out: &mut Vec<u8>, v: u16)
    ensures
        final(out)@ == old(out)@ + spec_u16_be(v),
{
    out.push(#[verifier::truncate] ((v >> 8) as u8));
    out.push(#[verifier::truncate] (v as u8));
    proof {
        assert(final(out)@ =~= old(out)@ + spec_u16_be(v));
    }
}

fn write_u32(out: &mut Vec<u8>, v: u32)
    ensures
        final(out)@ == old(out)@ + spec_u32_be(v),
{
    out.push(#[verifier::truncate] ((v >> 24) as u8));
    out.push(#[verifier::truncate] ((v >> 16) as u8));
    out.push(#[verifier::truncate] ((v >> 8) as u8));
    out.push(#[verifier::truncate] (v as u8));
    proof {
        assert(final(out)@ =~= old(out)@ + spec_u32_be(v));
    }
}

fn write_u64(out: &mut Vec<u8>, v: u64)
    ensures
        final(out)@ == old(out)@ + spec_u64_be(v),
{
    out.push(#[verifier::truncate] ((v >> 56) as u8));
    out.push(#[verifier::truncate] ((v >> 48) as u8));
    out.push(#[verifier::truncate] ((v >> 40) as u8));
    out.push(#[verifier::truncate] ((v >> 32) as u8));
    out.push(#[verifier::truncate] ((v >> 24) as u8));
    out.push(#[verifier::truncate] ((v >> 16) as u8));
    out.push(#[verifier::truncate] ((v >> 8) as u8));
    out.push(#[verifier::truncate] (v as u8));
    proof {
        assert(final(out)@ =~= old(out)@ + spec_u64_be(v));
    }
}

fn write_u128(out: &mut Vec<u8>, v: u128)
    ensures
        final(out)@ == old(out)@ + spec_u128_be(v),
{
    out.push(#[verifier::truncate] ((v >> 120) as u8));
    out.push(#[verifier::truncate] ((v >> 112) as u8));
    out.push(#[verifier::truncate] ((v >> 104) as u8));
    out.push(#[verifier::truncate] ((v >> 96) as u8));
    out.push(#[verifier::truncate] ((v >> 88) as u8));
    out.push(#[verifier::truncate] ((v >> 80) as u8));
    out.push(#[verifier::truncate] ((v >> 72) as u8));
    out.push(#[verifier::truncate] ((v >> 64) as u8));
    out.push(#[verifier::truncate] ((v >> 56) as u8));
    out.push(#[verifier::truncate] ((v >> 48) as u8));
    out.push(#[verifier::truncate] ((v >> 40) as u8));
    out.push(#[verifier::truncate] ((v >> 32) as u8));
    out.push(#[verifier::truncate] ((v >> 24) as u8));
    out.push(#[verifier::truncate] ((v >> 16) as u8));
    out.push(#[verifier::truncate] ((v >> 8) as u8));
    out.push(#[verifier::truncate] (v as u8));
    proof {
        assert(final(out)@ =~= old(out)@ + spec_u128_be(v));
    }
}

fn write_usize(out: &mut Vec<u8>, v: usize)
    ensures
        final(out)@ == old(out)@ + spec_u64_be(v as u64),
{
    write_u64(out, v as u64);
}

fn read_u8(s: &[u8], pos: usize) -> (r: Option<(u8, usize)>)
    ensures
        match r {
            Some((v, p2)) => spec_parse_u8(s@, pos as int) == Some((v, p2 as int)),
            None => spec_parse_u8(s@, pos as int) is None,
        },
{
    if pos < s.len() {
        Some((s[pos], pos + 1))
    } else {
        None
    }
}

fn read_u16(s: &[u8], pos: usize) -> (r: Option<(u16, usize)>)
    ensures
        match r {
            Some((v, p2)) => spec_parse_u16(s@, pos as int) == Some((v, p2 as int)),
            None => spec_parse_u16(s@, pos as int) is None,
        },
{
    if pos < s.len() && s.len() - pos >= 2 {
        let v: u16 = (s[pos] as u16) << 8 | (s[pos + 1] as u16);
        Some((v, pos + 2))
    } else {
        None
    }
}

fn read_u32(s: &[u8], pos: usize) -> (r: Option<(u32, usize)>)
    ensures
        match r {
            Some((v, p2)) => spec_parse_u32(s@, pos as int) == Some((v, p2 as int)),
            None => spec_parse_u32(s@, pos as int) is None,
        },
{
    if pos < s.len() && s.len() - pos >= 4 {
        let v: u32 = (s[pos] as u32) << 24 | (s[pos + 1] as u32) << 16 | (s[pos + 2] as u32) << 8
            | (s[pos + 3] as u32);
        Some((v, pos + 4))
    } else {
        None
    }
}

fn read_u64(s: &[u8], pos: usize) -> (r: Option<(u64, usize)>)
    ensures
        match r {
            Some((v, p2)) => spec_parse_u64(s@, pos as int) == Some((v, p2 as int)),
            None => spec_parse_u64(s@, pos as int) is None,
        },
{
    if pos < s.len() && s.len() - pos >= 8 {
        let v: u64 = (s[pos] as u64) << 56 | (s[pos + 1] as u64) << 48 | (s[pos + 2] as u64) << 40
            | (s[pos + 3] as u64) << 32 | (s[pos + 4] as u64) << 24 | (s[pos + 5] as u64) << 16 | (
        s[pos + 6] as u64) << 8 | (s[pos + 7] as u64);
        proof {
            let sub = s@.subrange(pos as int, pos as int + 8);
            assert forall|i: int| 0 <= i < 8 implies sub[i] == s@[pos as int + i] by {}
            assert(v == spec_read_u64(sub));
        }
        Some((v, pos + 8))
    } else {
        None
    }
}

fn read_u128(s: &[u8], pos: usize) -> (r: Option<(u128, usize)>)
    ensures
        match r {
            Some((v, p2)) => spec_parse_u128(s@, pos as int) == Some((v, p2 as int)),
            None => spec_parse_u128(s@, pos as int) is None,
        },
{
    if pos < s.len() && s.len() - pos >= 16 {
        let v: u128 = (s[pos] as u128) << 120 | (s[pos + 1] as u128) << 112 | (s[pos + 2] as u128)
            << 104 | (s[pos + 3] as u128) << 96 | (s[pos + 4] as u128) << 88 | (s[pos + 5] as u128)
            << 80 | (s[pos + 6] as u128) << 72 | (s[pos + 7] as u128) << 64 | (s[pos + 8] as u128)
            << 56 | (s[pos + 9] as u128) << 48 | (s[pos + 10] as u128) << 40 | (s[pos + 11]
            as u128) << 32 | (s[pos + 12] as u128) << 24 | (s[pos + 13] as u128) << 16 | (s[pos
            + 14] as u128) << 8 | (s[pos + 15] as u128);
        proof {
            let sub = s@.subrange(pos as int, pos as int + 16);
            assert forall|i: int| 0 <= i < 16 implies sub[i] == s@[pos as int + i] by {}
            assert(v == spec_read_u128(sub));
        }
        Some((v, pos + 16))
    } else {
        None
    }
}

fn read_usize(s: &[u8], pos: usize) -> (r: Option<(usize, usize)>)
    ensures
        match r {
            Some((v, p2)) => spec_parse_usize(s@, pos as int) == Some((v, p2 as int)),
            None => spec_parse_usize(s@, pos as int) is None,
        },
{
    match read_u64(s, pos) {
        None => None,
        Some((v, p2)) => if v <= usize::MAX as u64 {
            Some((v as usize, p2))
        } else {
            None
        },
    }
}

// ---------------------------------------------------------------------------
// Peer addresses
// ---------------------------------------------------------------------------

/// A peer's listen-address: the address it answers dials on, used as its
/// identity in the peer table and in gossip.
#[derive(Debug, Clone, Copy, PartialEq, Eq, Structural, Hash)]
pub enum PeerAddr {
    V4 { ip: u32, port: u16 },
    V6 { ip: u128, port: u16 },
}

/// Glue a parsed prefix onto the outcome of parsing the remaining
/// elements of a sequence.
pub open spec fn spec_join_parsed<T>(prefix: Seq<T>, r: Option<(Seq<T>, int)>) -> Option<
    (Seq<T>, int),
> {
    match r {
        None => None,
        Some((rest, p)) => Some((prefix + rest, p)),
    }
}

pub open spec fn spec_addr_bytes(a: PeerAddr) -> Seq<u8> {
    match a {
        PeerAddr::V4 { ip, port } => seq![4u8] + spec_u32_be(ip) + spec_u16_be(port),
        PeerAddr::V6 { ip, port } => seq![6u8] + spec_u128_be(ip) + spec_u16_be(port),
    }
}

pub open spec fn spec_parse_addr(s: Seq<u8>, pos: int) -> Option<(PeerAddr, int)> {
    match spec_parse_u8(s, pos) {
        None => None,
        Some((tag, p1)) => if tag == 4 {
            match spec_parse_u32(s, p1) {
                None => None,
                Some((ip, p2)) => match spec_parse_u16(s, p2) {
                    None => None,
                    Some((port, p3)) => Some((PeerAddr::V4 { ip, port }, p3)),
                },
            }
        } else if tag == 6 {
            match spec_parse_u128(s, p1) {
                None => None,
                Some((ip, p2)) => match spec_parse_u16(s, p2) {
                    None => None,
                    Some((port, p3)) => Some((PeerAddr::V6 { ip, port }, p3)),
                },
            }
        } else {
            None
        },
    }
}

/// A sub-piece of a byte range that holds a known byte string equals the
/// corresponding piece of that string.
proof fn lemma_subrange_at(s: Seq<u8>, pos: int, full: Seq<u8>, a: int, b: int)
    requires
        0 <= pos,
        pos + full.len() <= s.len(),
        s.subrange(pos, pos + full.len()) == full,
        0 <= a <= b <= full.len(),
    ensures
        s.subrange(pos + a, pos + b) =~= full.subrange(a, b),
{
    assert forall|i: int| 0 <= i < b - a implies s.subrange(pos + a, pos + b)[i] == full.subrange(
        a,
        b,
    )[i] by {
        assert(s.subrange(pos, pos + full.len())[a + i] == s[pos + (a + i)]);
        assert(s.subrange(pos + a, pos + b)[i] == s[pos + a + i]);
    }
}

/// A byte range that holds an encoded address parses back to that address
/// and stops right after it.
proof fn lemma_parse_addr_exact(s: Seq<u8>, pos: int, a: PeerAddr)
    requires
        0 <= pos,
        pos + spec_addr_bytes(a).len() <= s.len(),
        s.subrange(pos, pos + spec_addr_bytes(a).len()) == spec_addr_bytes(a),
    ensures
        spec_parse_addr(s, pos) == Some((a, pos + spec_addr_bytes(a).len())),
{
    let b = spec_addr_bytes(a);
    assert(s[pos] == b[0]) by {
        assert(s.subrange(pos, pos + b.len())[0] == s[pos]);
    }
    match a {
        PeerAddr::V4 { ip, port } => {
            lemma_subrange_at(s, pos, b, 1, 5);
            assert(b.subrange(1, 5) =~= spec_u32_be(ip));
            lemma_parse_u32_exact(s, pos + 1, ip);
            lemma_subrange_at(s, pos, b, 5, 7);
            assert(b.subrange(5, 7) =~= spec_u16_be(port));
            lemma_parse_u16_exact(s, pos + 5, port);
        },
        PeerAddr::V6 { ip, port } => {
            lemma_subrange_at(s, pos, b, 1, 17);
            assert(b.subrange(1, 17) =~= spec_u128_be(ip));
            lemma_parse_u128_exact(s, pos + 1, ip);
            lemma_subrange_at(s, pos, b, 17, 19);
            assert(b.subrange(17, 19) =~= spec_u16_be(port));
            lemma_parse_u16_exact(s, pos + 17, port);
        },
    }
}

fn write_addr(out: &mut Vec<u8>, a: &PeerAddr)
    ensures
        final(out)@ == old(out)@ + spec_addr_bytes(*a),
{
    match a {
        PeerAddr::V4 { ip, port } => {
            out.push(4u8);
            write_u32(out, *ip);
            write_u16(out, *port);
        },
        PeerAddr::V6 { ip, port } => {
            out.push(6u8);
            write_u128(out, *ip);
            write_u16(out, *port);
        },
    }
    proof {
        assert(out@ =~= old(out)@ + spec_addr_bytes(*a));
    }
}

fn read_addr(s: &[u8], pos: usize) -> (r: Option<(PeerAddr, usize)>)
    ensures
        match r {
            Some((a, p2)) => spec_parse_addr(s@, pos as int) == Some((a, p2 as int)),
            None => spec_parse_addr(s@, pos as int) is None,
        },
{
    match read_u8(s, pos) {
        None => None,
        Some((tag, p1)) => if tag == 4 {
            match read_u32(s, p1) {
                None => None,
                Some((ip, p2)) => match read_u16(s, p2) {
                    None => None,
                    Some((port, p3)) => Some((PeerAddr::V4 { ip, port }, p3)),
                },
            }
        } else if tag == 6 {
            match read_u128(s, p1) {
                None => None,
                Some((ip, p2)) => match read_u16(s, p2) {
                    None => None,
                    Some((port, p3)) => Some((PeerAddr::V6 { ip, port }, p3)),
                },
            }
        } else {
            None
        },
    }
}

pub open spec fn spec_addrs_bytes(l: Seq<PeerAddr>) -> Seq<u8>
    decreases l.len(),
{
    if l.len() == 0 {
        Seq::empty()
    } else {
        spec_addr_bytes(l[0]) + spec_addrs_bytes(l.drop_first())
    }
}

pub open spec fn spec_parse_addrs(s: Seq<u8>, pos: int, n: int) -> Option<(Seq<PeerAddr>, int)>
    decreases n,
{
    if n <= 0 {
        if n == 0 {
            Some((Seq::empty(), pos))
        } else {
            None
        }
    } else {
        match spec_parse_addr(s, pos) {
            None => None,
            Some((a, p2)) => spec_join_parsed(seq![a], spec_parse_addrs(s, p2, n - 1)),
        }
    }
}

proof fn lemma_addrs_bytes_push(l: Seq<PeerAddr>, a: PeerAddr)
    ensures
        spec_addrs_bytes(l.push(a)) == spec_addrs_bytes(l) + spec_addr_bytes(a),
    decreases l.len(),
{
    if l.len() == 0 {
        assert(l =~= Seq::<PeerAddr>::empty());
        assert(l.push(a)[0] == a);
        assert(l.push(a).drop_first() =~= l);
        assert(spec_addrs_bytes(l.push(a)) == spec_addr_bytes(a) + spec_addrs_bytes(l));
        assert(spec_addrs_bytes(l) =~= Seq::<u8>::empty());
        assert(spec_addr_bytes(a) + spec_addrs_bytes(l) =~= spec_addrs_bytes(l) + spec_addr_bytes(
            a,
        ));
    } else {
        assert(l.push(a)[0] == l[0]);
        assert(l.push(a).drop_first() =~= l.drop_first().push(a));
        lemma_addrs_bytes_push(l.drop_first(), a);
        assert(spec_addrs_bytes(l.push(a)) == spec_addr_bytes(l[0]) + spec_addrs_bytes(
            l.drop_first().push(a),
        ));
        assert(spec_addr_bytes(l[0]) + (spec_addrs_bytes(l.drop_first()) + spec_addr_bytes(a)) =~= (
        spec_addr_bytes(l[0]) + spec_addrs_bytes(l.drop_first())) + spec_addr_bytes(a));
        assert(spec_addrs_bytes(l) == spec_addr_bytes(l[0]) + spec_addrs_bytes(l.drop_first()));
    }
}

proof fn lemma_parse_addrs_exact(s: Seq<u8>, pos: int, l: Seq<PeerAddr>)
    requires
        0 <= pos,
        pos + spec_addrs_bytes(l).len() <= s.len(),
        s.subrange(pos, pos + spec_addrs_bytes(l).len()) == spec_addrs_bytes(l),
    ensures
        spec_parse_addrs(s, pos, l.len() as int) == Some((l, pos + spec_addrs_bytes(l).len())),
    decreases l.len(),
{
    if l.len() == 0 {
        assert(l =~= Seq::<PeerAddr>::empty());
    } else {
        let hb = spec_addr_bytes(l[0]);
        let tb = spec_addrs_bytes(l.drop_first());
        let full = spec_addrs_bytes(l);
        assert(full == hb + tb);
        lemma_subrange_at(s, pos, full, 0, hb.len() as int);
        assert(full.subrange(0, hb.len() as int) =~= hb);
        lemma_parse_addr_exact(s, pos, l[0]);
        lemma_subrange_at(s, pos, full, hb.len() as int, full.len() as int);
        assert(full.subrange(hb.len() as int, full.len() as int) =~= tb);
        lemma_parse_addrs_exact(s, pos + hb.len(), l.drop_first());
        assert(seq![l[0]] + l.drop_first() =~= l);
    }
}

fn write_addrs(out: &mut Vec<u8>, l: &Vec<PeerAddr>)
    ensures
        final(out)@ == old(out)@ + spec_u64_be(l@.len() as u64) + spec_addrs_bytes(l@),
{
    write_u64(out, l.len() as u64);
    let n = l.len();
    let mut i: usize = 0;
    while i < n
        invariant
            n == l@.len(),
            i <= n,
            out@ == old(out)@ + spec_u64_be(l@.len() as u64) + spec_addrs_bytes(l@.take(i as int)),
        decreases n - i,
    {
        write_addr(out, &l[i]);
        proof {
            assert(l@.take(i as int).push(l@[i as int]) =~= l@.take(i as int + 1));
            lemma_addrs_bytes_push(l@.take(i as int), l@[i as int]);
        }
        i = i + 1;
    }
    proof {
        assert(l@.take(n as int) =~= l@);
    }
}

fn read_addrs(s: &[u8], pos: usize, n: u64) -> (r: Option<(Vec<PeerAddr>, usize)>)
    ensures
        match r {
            Some((l, p2)) => spec_parse_addrs(s@, pos as int, n as int) == Some((l@, p2 as int)),
            None => spec_parse_addrs(s@, pos as int, n as int) is None,
        },
{
    let mut l: Vec<PeerAddr> = Vec::new();
    let mut cur: usize = pos;
    let mut i: u64 = 0;
    proof {
        match spec_parse_addrs(s@, pos as int, n as int) {
            Some((rest, p)) => {
                assert(Seq::<PeerAddr>::empty() + rest =~= rest);
            },
            None => {},
        }
    }
    while i < n
        invariant
            i <= n,
            spec_parse_addrs(s@, pos as int, n as int) == spec_join_parsed(
                l@,
                spec_parse_addrs(s@, cur as int, n as int - i as int),
            ),
        decreases n - i,
    {
        let ghost l_prev = l@;
        match read_addr(s, cur) {
            None => {
                proof {
                    assert(n as int - i as int > 0);
                    assert(spec_parse_addr(s@, cur as int) is None);
                    assert(spec_parse_addrs(s@, cur as int, n as int - i as int) is None);
                    assert(spec_parse_addrs(s@, pos as int, n as int) is None);
                }
                return None;
            },
            Some((a, p2)) => {
                l.push(a);
                cur = p2;
                proof {
                    match spec_parse_addrs(s@, cur as int, n as int - i as int - 1) {
                        Some((rest, p3)) => {
                            assert(l_prev + (seq![a] + rest) =~= l_prev.push(a) + rest);
                        },
                        None => {},
                    }
                }
            },
        }
        i = i + 1;
    }
    proof {
        assert(l@ + Seq::<PeerAddr>::empty() =~= l@);
    }
    Some((l, cur))
}

// ---------------------------------------------------------------------------
// Work descriptors
// ---------------------------------------------------------------------------

pub open spec fn spec_work_bytes(w: TileRenderWork) -> Seq<u8> {
    spec_u64_be(w.begin_pos.0 as u64) + spec_u64_be(w.begin_pos.1 as u64) + spec_u64_be(
        w.tile_size.0 as u64,
    ) + spec_u64_be(w.tile_size.1 as u64)
}

pub open spec fn spec_parse_work(s: Seq<u8>, pos: int) -> Option<(TileRenderWork, int)> {
    match spec_parse_usize(s, pos) {
        None => None,
        Some((bx, p1)) => match spec_parse_usize(s, p1) {
            None => None,
            Some((by, p2)) => match spec_parse_usize(s, p2) {
                None => None,
                Some((tw, p3)) => match spec_parse_usize(s, p3) {
                    None => None,
                    Some((th, p4)) => Some(
                        (TileRenderWork { begin_pos: (bx, by), tile_size: (tw, th) }, p4),
                    ),
                },
            },
        },
    }
}

proof fn lemma_parse_work_exact(s: Seq<u8>, pos: int, w: TileRenderWork)
    requires
        0 <= pos,
        pos + 32 <= s.len(),
        s.subrange(pos, pos + 32) == spec_work_bytes(w),
    ensures
        spec_parse_work(s, pos) == Some((w, pos + 32)),
{
    let b = spec_work_bytes(w);
    lemma_subrange_at(s, pos, b, 0, 8);
    assert(b.subrange(0, 8) =~= spec_u64_be(w.begin_pos.0 as u64));
    lemma_parse_usize_exact(s, pos, w.begin_pos.0);
    lemma_subrange_at(s, pos, b, 8, 16);
    assert(b.subrange(8, 16) =~= spec_u64_be(w.begin_pos.1 as u64));
    lemma_parse_usize_exact(s, pos + 8, w.begin_pos.1);
    lemma_subrange_at(s, pos, b, 16, 24);
    assert(b.subrange(16, 24) =~= spec_u64_be(w.tile_size.0 as u64));
    lemma_parse_usize_exact(s, pos + 16, w.tile_size.0);
    lemma_subrange_at(s, pos, b, 24, 32);
    assert(b.subrange(24, 32) =~= spec_u64_be(w.tile_size.1 as u64));
    lemma_parse_usize_exact(s, pos + 24, w.tile_size.1);
}

fn write_work(out: &mut Vec<u8>, w: &TileRenderWork)
    ensures
        final(out)@ == old(out)@ + spec_work_bytes(*w),
{
    write_usize(out, w.begin_pos.0);
    write_usize(out, w.begin_pos.1);
    write_usize(out, w.tile_size.0);
    write_usize(out, w.tile_size.1);
    proof {
        assert(out@ =~= old(out)@ + spec_work_bytes(*w));
    }
}

fn read_work(s: &[u8], pos: usize) -> (r: Option<(TileRenderWork, usize)>)
    ensures
        match r {
            Some((w, p2)) => spec_parse_work(s@, pos as int) == Some((w, p2 as int)),
            None => spec_parse_work(s@, pos as int) is None,
        },
{
    match read_usize(s, pos) {
        None => None,
        Some((bx, p1)) => match read_usize(s, p1) {
            None => None,
            Some((by, p2)) => match read_usize(s, p2) {
                None => None,
                Some((tw, p3)) => match read_usize(s, p3) {
                    None => None,
                    Some((th, p4)) => Some(
                        (TileRenderWork { begin_pos: (bx, by), tile_size: (tw, th) }, p4),
                    ),
                },
            },
        },
    }
}

pub open spec fn spec_works_bytes(l: Seq<TileRenderWork>) -> Seq<u8>
    decreases l.len(),
{
    if l.len() == 0 {
        Seq::empty()
    } else {
        spec_work_bytes(l[0]) + spec_works_bytes(l.drop_first())
    }
}

pub open spec fn spec_parse_works(s: Seq<u8>, pos: int, n: int) -> Option<
    (Seq<TileRenderWork>, int),
>
    decreases n,
{
    if n <= 0 {
        if n == 0 {
            Some((Seq::empty(), pos))
        } else {
            None
        }
    } else {
        match spec_parse_work(s, pos) {
            None => None,
            Some((w, p2)) => spec_join_parsed(seq![w], spec_parse_works(s, p2, n - 1)),
        }
    }
}

proof fn lemma_works_bytes_push(l: Seq<TileRenderWork>, w: TileRenderWork)
    ensures
        spec_works_bytes(l.push(w)) == spec_works_bytes(l) + spec_work_bytes(w),
    decreases l.len(),
{
    if l.len() == 0 {
        assert(l =~= Seq::<TileRenderWork>::empty());
        assert(l.push(w)[0] == w);
        assert(l.push(w).drop_first() =~= l);
        assert(spec_works_bytes(l.push(w)) == spec_work_bytes(w) + spec_works_bytes(l));
        assert(spec_works_bytes(l) =~= Seq::<u8>::empty());
        assert(spec_work_bytes(w) + spec_works_bytes(l) =~= spec_works_bytes(l) + spec_work_bytes(
            w,
        ));
    } else {
        assert(l.push(w)[0] == l[0]);
        assert(l.push(w).drop_first() =~= l.drop_first().push(w));
        lemma_works_bytes_push(l.drop_first(), w);
        assert(spec_works_bytes(l.push(w)) == spec_work_bytes(l[0]) + spec_works_bytes(
            l.drop_first().push(w),
        ));
        assert(spec_work_bytes(l[0]) + (spec_works_bytes(l.drop_first()) + spec_work_bytes(w)) =~= (
        spec_work_bytes(l[0]) + spec_works_bytes(l.drop_first())) + spec_work_bytes(w));
        assert(spec_works_bytes(l) == spec_work_bytes(l[0]) + spec_works_bytes(l.drop_first()));
    }
}

proof fn lemma_parse_works_exact(s: Seq<u8>, pos: int, l: Seq<TileRenderWork>)
    requires
        0 <= pos,
        pos + spec_works_bytes(l).len() <= s.len(),
        s.subrange(pos, pos + spec_works_bytes(l).len()) == spec_works_bytes(l),
    ensures
        spec_parse_works(s, pos, l.len() as int) == Some((l, pos + spec_works_bytes(l).len())),
    decreases l.len(),
{
    if l.len() == 0 {
        assert(l =~= Seq::<TileRenderWork>::empty());
    } else {
        let hb = spec_work_bytes(l[0]);
        let tb = spec_works_bytes(l.drop_first());
        let full = spec_works_bytes(l);
        assert(full == hb + tb);
        lemma_subrange_at(s, pos, full, 0, hb.len() as int);
        assert(full.subrange(0, hb.len() as int) =~= hb);
        lemma_parse_work_exact(s, pos, l[0]);
        lemma_subrange_at(s, pos, full, hb.len() as int, full.len() as int);
        assert(full.subrange(hb.len() as int, full.len() as int) =~= tb);
        lemma_parse_works_exact(s, pos + hb.len(), l.drop_first());
        assert(seq![l[0]] + l.drop_first() =~= l);
    }
}

fn write_works(out: &mut Vec<u8>, l: &Vec<TileRenderWork>)
    ensures
        final(out)@ == old(out)@ + spec_u64_be(l@.len() as u64) + spec_works_bytes(l@),
{
    write_u64(out, l.len() as u64);
    let n = l.len();
    let mut i: usize = 0;
    while i < n
        invariant
            n == l@.len(),
            i <= n,
            out@ == old(out)@ + spec_u64_be(l@.len() as u64) + spec_works_bytes(l@.take(i as int)),
        decreases n - i,
    {
        write_work(out, &l[i]);
        proof {
            assert(l@.take(i as int).push(l@[i as int]) =~= l@.take(i as int + 1));
            lemma_works_bytes_push(l@.take(i as int), l@[i as int]);
        }
        i = i + 1;
    }
    proof {
        assert(l@.take(n as int) =~= l@);
    }
}

fn read_works(s: &[u8], pos: usize, n: u64) -> (r: Option<(Vec<TileRenderWork>, usize)>)
    ensures
        match r {
            Some((l, p2)) => spec_parse_works(s@, pos as int, n as int) == Some((l@, p2 as int)),
            None => spec_parse_works(s@, pos as int, n as int) is None,
        },
{
    let mut l: Vec<TileRenderWork> = Vec::new();
    let mut cur: usize = pos;
    let mut i: u64 = 0;
    proof {
        match spec_parse_works(s@, pos as int, n as int) {
            Some((rest, p)) => {
                assert(Seq::<TileRenderWork>::empty() + rest =~= rest);
            },
            None => {},
        }
    }
    while i < n
        invariant
            i <= n,
            spec_parse_works(s@, pos as int, n as int) == spec_join_parsed(
                l@,
                spec_parse_works(s@, cur as int, n as int - i as int),
            ),
        decreases n - i,
    {
        let ghost l_prev = l@;
        match read_work(s, cur) {
            None => {
                proof {
                    assert(n as int - i as int > 0);
                    assert(spec_parse_work(s@, cur as int) is None);
                    assert(spec_parse_works(s@, cur as int, n as int - i as int) is None);
                    assert(spec_parse_works(s@, pos as int, n as int) is None);
                }
                return None;
            },
            Some((w, p2)) => {
                l.push(w);
                cur = p2;
                proof {
                    match spec_parse_works(s@, cur as int, n as int - i as int - 1) {
                        Some((rest, p3)) => {
                            assert(l_prev + (seq![w] + rest) =~= l_prev.push(w) + rest);
                        },
                        None => {},
                    }
                }
            },
        }
        i = i + 1;
    }
    proof {
        assert(l@ + Seq::<TileRenderWork>::empty() =~= l@);
    }
    Some((l, cur))
}

// ---------------------------------------------------------------------------
// Pixels and tiles
// ---------------------------------------------------------------------------

pub open spec fn spec_pixel_bytes(p: Pixel) -> Seq<u8> {
    spec_u32_be(p.r) + spec_u32_be(p.g) + spec_u32_be(p.b)
}

/// A pixel on the wire must be in range: out-of-range channels are a
/// malformed payload.
pub open spec fn spec_parse_pixel(s: Seq<u8>, pos: int) -> Option<(Pixel, int)> {
    match spec_parse_u32(s, pos) {
        None => None,
        Some((r, p1)) => match spec_parse_u32(s, p1) {
            None => None,
            Some((g, p2)) => match spec_parse_u32(s, p2) {
                None => None,
                Some((b, p3)) => if r <= CHANNEL_ONE && g <= CHANNEL_ONE && b <= CHANNEL_ONE {
                    Some((Pixel { r, g, b }, p3))
                } else {
                    None
                },
            },
        },
    }
}

proof fn lemma_parse_pixel_exact(s: Seq<u8>, pos: int, p: Pixel)
    requires
        0 <= pos,
        pos + 12 <= s.len(),
        s.subrange(pos, pos + 12) == spec_pixel_bytes(p),
        p.wf(),
    ensures
        spec_parse_pixel(s, pos) == Some((p, pos + 12)),
{
    let b = spec_pixel_bytes(p);
    lemma_subrange_at(s, pos, b, 0, 4);
    assert(b.subrange(0, 4) =~= spec_u32_be(p.r));
    lemma_parse_u32_exact(s, pos, p.r);
    lemma_subrange_at(s, pos, b, 4, 8);
    assert(b.subrange(4, 8) =~= spec_u32_be(p.g));
    lemma_parse_u32_exact(s, pos + 4, p.g);
    lemma_subrange_at(s, pos, b, 8, 12);
    assert(b.subrange(8, 12) =~= spec_u32_be(p.b));
    lemma_parse_u32_exact(s, pos + 8, p.b);
}

fn write_pixel(out: &mut Vec<u8>, p: Pixel)
    ensures
        final(out)@ == old(out)@ + spec_pixel_bytes(p),
{
    write_u32(out, p.r);
    write_u32(out, p.g);
    write_u32(out, p.b);
    proof {
        assert(out@ =~= old(out)@ + spec_pixel_bytes(p));
    }
}

fn read_pixel(s: &[u8], pos: usize) -> (r: Option<(Pixel, usize)>)
    ensures
        match r {
            Some((p, p2)) => spec_parse_pixel(s@, pos as int) == Some((p, p2 as int)) && p.wf(),
            None => spec_parse_pixel(s@, pos as int) is None,
        },
{
    match read_u32(s, pos) {
        None => None,
        Some((cr, p1)) => match read_u32(s, p1) {
            None => None,
            Some((cg, p2)) => match read_u32(s, p2) {
                None => None,
                Some((cb, p3)) => if cr <= CHANNEL_ONE && cg <= CHANNEL_ONE && cb <= CHANNEL_ONE {
                    Some((Pixel { r: cr, g: cg, b: cb }, p3))
                } else {
                    None
                },
            },
        },
    }
}

pub open spec fn spec_pixels_bytes(l: Seq<Pixel>) -> Seq<u8>
    decreases l.len(),
{
    if l.len() == 0 {
        Seq::empty()
    } else {
        spec_pixel_bytes(l[0]) + spec_pixels_bytes(l.drop_first())
    }
}

pub open spec fn spec_parse_pixels(s: Seq<u8>, pos: int, n: int) -> Option<(Seq<Pixel>, int)>
    decreases n,
{
    if n <= 0 {
        if n == 0 {
            Some((Seq::empty(), pos))
        } else {
            None
        }
    } else {
        match spec_parse_pixel(s, pos) {
            None => None,
            Some((p, p2)) => spec_join_parsed(seq![p], spec_parse_pixels(s, p2, n - 1)),
        }
    }
}

proof fn lemma_pixels_bytes_push(l: Seq<Pixel>, p: Pixel)
    ensures
        spec_pixels_bytes(l.push(p)) == spec_pixels_bytes(l) + spec_pixel_bytes(p),
    decreases l.len(),
{
    if l.len() == 0 {
        assert(l =~= Seq::<Pixel>::empty());
        assert(l.push(p)[0] == p);
        assert(l.push(p).drop_first() =~= l);
        assert(spec_pixels_bytes(l.push(p)) == spec_pixel_bytes(p) + spec_pixels_bytes(l));
        assert(spec_pixels_bytes(l) =~= Seq::<u8>::empty());
        assert(spec_pixel_bytes(p) + spec_pixels_bytes(l) =~= spec_pixels_bytes(l)
            + spec_pixel_bytes(p));
    } else {
        assert(l.push(p)[0] == l[0]);
        assert(l.push(p).drop_first() =~= l.drop_first().push(p));
        lemma_pixels_bytes_push(l.drop_first(), p);
        assert(spec_pixels_bytes(l.push(p)) == spec_pixel_bytes(l[0]) + spec_pixels_bytes(
            l.drop_first().push(p),
        ));
        assert(spec_pixel_bytes(l[0]) + (spec_pixels_bytes(l.drop_first()) + spec_pixel_bytes(p))
            =~= (spec_pixel_bytes(l[0]) + spec_pixels_bytes(l.drop_first())) + spec_pixel_bytes(p));
        assert(spec_pixels_bytes(l) == spec_pixel_bytes(l[0]) + spec_pixels_bytes(l.drop_first()));
    }
}

proof fn lemma_parse_pixels_exact(s: Seq<u8>, pos: int, l: Seq<Pixel>)
    requires
        0 <= pos,
        pos + spec_pixels_bytes(l).len() <= s.len(),
        s.subrange(pos, pos + spec_pixels_bytes(l).len()) == spec_pixels_bytes(l),
        forall|i: int| 0 <= i < l.len() ==> (#[trigger] l[i]).wf(),
    ensures
        spec_parse_pixels(s, pos, l.len() as int) == Some((l, pos + spec_pixels_bytes(l).len())),
    decreases l.len(),
{
    if l.len() == 0 {
        assert(l =~= Seq::<Pixel>::empty());
    } else {
        let hb = spec_pixel_bytes(l[0]);
        let tb = spec_pixels_bytes(l.drop_first());
        let full = spec_pixels_bytes(l);
        assert(full == hb + tb);
        lemma_subrange_at(s, pos, full, 0, hb.len() as int);
        assert(full.subrange(0, hb.len() as int) =~= hb);
        lemma_parse_pixel_exact(s, pos, l[0]);
        lemma_subrange_at(s, pos, full, hb.len() as int, full.len() as int);
        assert(full.subrange(hb.len() as int, full.len() as int) =~= tb);
        assert(forall|i: int|
            0 <= i < l.drop_first().len() ==> (#[trigger] l.drop_first()[i]).wf());
        lemma_parse_pixels_exact(s, pos + hb.len(), l.drop_first());
        assert(seq![l[0]] + l.drop_first() =~= l);
    }
}

fn read_pixels(s: &[u8], pos: usize, n: usize) -> (r: Option<(Vec<Pixel>, usize)>)
    ensures
        match r {
            Some((l, p2)) => spec_parse_pixels(s@, pos as int, n as int) == Some((l@, p2 as int))
                && (forall|i: int| 0 <= i < l@.len() ==> (#[trigger] l@[i]).wf()) && l@.len() == n,
            None => spec_parse_pixels(s@, pos as int, n as int) is None,
        },
{
    let mut l: Vec<Pixel> = Vec::new();
    let mut cur: usize = pos;
    let mut i: usize = 0;
    proof {
        match spec_parse_pixels(s@, pos as int, n as int) {
            Some((rest, p)) => {
                assert(Seq::<Pixel>::empty() + rest =~= rest);
            },
            None => {},
        }
    }
    while i < n
        invariant
            i <= n,
            l@.len() == i,
            forall|j: int| 0 <= j < l@.len() ==> (#[trigger] l@[j]).wf(),
            spec_parse_pixels(s@, pos as int, n as int) == spec_join_parsed(
                l@,
                spec_parse_pixels(s@, cur as int, n as int - i as int),
            ),
        decreases n - i,
    {
        let ghost l_prev = l@;
        match read_pixel(s, cur) {
            None => {
                proof {
                    assert(n as int - i as int > 0);
                    assert(spec_parse_pixels(s@, cur as int, n as int - i as int) is None);
                }
                return None;
            },
            Some((p, p2)) => {
                l.push(p);
                cur = p2;
                proof {
                    match spec_parse_pixels(s@, cur as int, n as int - i as int - 1) {
                        Some((rest, p3)) => {
                            assert(l_prev + (seq![p] + rest) =~= l_prev.push(p) + rest);
                        },
                        None => {},
                    }
                }
            },
        }
        i = i + 1;
    }
    proof {
        assert(l@ + Seq::<Pixel>::empty() =~= l@);
    }
    Some((l, cur))
}

/// What a tile is mathematically: its extent and its row-major pixels.
pub struct TileModel {
    pub width: int,
    pub height: int,
    pub pixels: Seq<Pixel>,
}

/// The model of an in-memory tile.
pub open spec fn spec_tile_model(t: Tile) -> TileModel {
    TileModel { width: t.spec_width(), height: t.spec_height(), pixels: t.spec_pixels() }
}

/// A tile model the codec accepts: non-empty, extent honest about the
/// pixel count, every pixel in range, and small enough to exist in memory.
pub open spec fn spec_tile_model_wf(m: TileModel) -> bool {
    &&& 1 <= m.width
    &&& 1 <= m.height
    &&& m.width * m.height <= usize::MAX
    &&& m.pixels.len() == m.width * m.height
    &&& forall|i: int| 0 <= i < m.pixels.len() ==> (#[trigger] m.pixels[i]).wf()
}

pub open spec fn spec_tile_bytes(m: TileModel) -> Seq<u8> {
    spec_u64_be(m.width as u64) + spec_u64_be(m.height as u64) + spec_pixels_bytes(m.pixels)
}

pub open spec fn spec_parse_tile(s: Seq<u8>, pos: int) -> Option<(TileModel, int)> {
    match spec_parse_usize(s, pos) {
        None => None,
        Some((w, p1)) => match spec_parse_usize(s, p1) {
            None => None,
            Some((h, p2)) => if 1 <= w && 1 <= h && w as int * h as int <= usize::MAX {
                match spec_parse_pixels(s, p2, w as int * h as int) {
                    None => None,
                    Some((ps, p3)) => Some(
                        (TileModel { width: w as int, height: h as int, pixels: ps }, p3),
                    ),
                }
            } else {
                None
            },
        },
    }
}

proof fn lemma_parse_tile_exact(s: Seq<u8>, pos: int, m: TileModel)
    requires
        0 <= pos,
        pos + spec_tile_bytes(m).len() <= s.len(),
        s.subrange(pos, pos + spec_tile_bytes(m).len()) == spec_tile_bytes(m),
        spec_tile_model_wf(m),
    ensures
        spec_parse_tile(s, pos) == Some((m, pos + spec_tile_bytes(m).len())),
{
    let full = spec_tile_bytes(m);
    assert(m.width <= usize::MAX && m.height <= usize::MAX) by (nonlinear_arith)
        requires
            1 <= m.width,
            1 <= m.height,
            m.width * m.height <= usize::MAX,
    ;
    lemma_subrange_at(s, pos, full, 0, 8);
    assert(full.subrange(0, 8) =~= spec_u64_be(m.width as u64));
    assert((m.width as usize) as u64 == m.width as u64);
    lemma_parse_usize_exact(s, pos, m.width as usize);
    lemma_subrange_at(s, pos, full, 8, 16);
    assert(full.subrange(8, 16) =~= spec_u64_be(m.height as u64));
    assert((m.height as usize) as u64 == m.height as u64);
    lemma_parse_usize_exact(s, pos + 8, m.height as usize);
    lemma_subrange_at(s, pos, full, 16, full.len() as int);
    assert(full.subrange(16, full.len() as int) =~= spec_pixels_bytes(m.pixels));
    lemma_parse_pixels_exact(s, pos + 16, m.pixels);
}

fn write_tile(out: &mut Vec<u8>, t: &Tile)
    requires
        t.wf(),
    ensures
        final(out)@ == old(out)@ + spec_tile_bytes(spec_tile_model(*t)),
{
    proof {
        crate::image::lemma_image_pixels(*t);
    }
    let w = t.width();
    let h = t.height();
    write_u64(out, w as u64);
    write_u64(out, h as u64);
    proof {
        assert(w as int * h as int <= usize::MAX);
    }
    let n: usize = w * h;
    let mut i: usize = 0;
    while i < n
        invariant
            t.wf(),
            w as int == t.spec_width(),
            h as int == t.spec_height(),
            n == t.spec_pixels().len(),
            n as int == t.spec_width() * t.spec_height(),
            i <= n,
            out@ == old(out)@ + spec_u64_be(t.spec_width() as u64) + spec_u64_be(
                t.spec_height() as u64,
            ) + spec_pixels_bytes(t.spec_pixels().take(i as int)),
        decreases n - i,
    {
        let p = t.pixel_row_major(i);
        write_pixel(out, p);
        proof {
            assert(t.spec_pixels().take(i as int).push(t.spec_pixels()[i as int]) =~= t.spec_pixels(
            ).take(i as int + 1));
            lemma_pixels_bytes_push(t.spec_pixels().take(i as int), t.spec_pixels()[i as int]);
        }
        i = i + 1;
    }
    proof {
        assert(t.spec_pixels().take(n as int) =~= t.spec_pixels());
        assert(out@ =~= old(out)@ + spec_tile_bytes(spec_tile_model(*t)));
    }
}

/// An integer bound can be tested by division: for `h >= 1`,
/// `w * h <= cap` exactly when `w <= cap / h`.
proof fn lemma_mul_le_iff_div(w: int, h: int, cap: int)
    requires
        1 <= h,
        0 <= w,
        0 <= cap,
    ensures
        (w * h <= cap) <==> (w <= cap / h),
{
    vstd::arithmetic::div_mod::lemma_fundamental_div_mod(cap, h);
    if w <= cap / h {
        assert(w * h <= (cap / h) * h) by (nonlinear_arith)
            requires
                w <= cap / h,
                h >= 1,
        ;
        assert(h * (cap / h) == (cap / h) * h) by (nonlinear_arith);
    }
    if w * h <= cap {
        vstd::arithmetic::div_mod::lemma_div_is_ordered(w * h, cap, h);
        vstd::arithmetic::div_mod::lemma_div_by_multiple(w, h);
    }
}

fn read_tile(s: &[u8], pos: usize) -> (r: Option<(Tile, usize)>)
    ensures
        match r {
            Some((t, p2)) => spec_parse_tile(s@, pos as int) == Some((spec_tile_model(t), p2 as int))
                && t.wf(),
            None => spec_parse_tile(s@, pos as int) is None,
        },
{
    match read_usize(s, pos) {
        None => None,
        Some((w, p1)) => match read_usize(s, p1) {
            None => None,
            Some((h, p2)) => {
                proof {
                    if h >= 1 {
                        lemma_mul_le_iff_div(w as int, h as int, usize::MAX as int);
                    }
                }
                if 1 <= w && 1 <= h && w <= usize::MAX / h {
                    let n: usize = w * h;
                    match read_pixels(s, p2, n) {
                        None => None,
                        Some((ps, p3)) => {
                            let t = crate::image::Image::from_pixels((w, h), ps);
                            proof {
                                crate::image::lemma_image_pixels(t);
                            }
                            Some((t, p3))
                        },
                    }
                } else {
                    None
                }
            },
        },
    }
}

pub open spec fn spec_tiles_bytes(l: Seq<TileModel>) -> Seq<u8>
    decreases l.len(),
{
    if l.len() == 0 {
        Seq::empty()
    } else {
        spec_tile_bytes(l[0]) + spec_tiles_bytes(l.drop_first())
    }
}

pub open spec fn spec_parse_tiles(s: Seq<u8>, pos: int, n: int) -> Option<(Seq<TileModel>, int)>
    decreases n,
{
    if n <= 0 {
        if n == 0 {
            Some((Seq::empty(), pos))
        } else {
            None
        }
    } else {
        match spec_parse_tile(s, pos) {
            None => None,
            Some((m, p2)) => spec_join_parsed(seq![m], spec_parse_tiles(s, p2, n - 1)),
        }
    }
}

proof fn lemma_tiles_bytes_push(l: Seq<TileModel>, m: TileModel)
    ensures
        spec_tiles_bytes(l.push(m)) == spec_tiles_bytes(l) + spec_tile_bytes(m),
    decreases l.len(),
{
    if l.len() == 0 {
        assert(l =~= Seq::<TileModel>::empty());
        assert(l.push(m)[0] == m);
        assert(l.push(m).drop_first() =~= l);
        assert(spec_tiles_bytes(l.push(m)) == spec_tile_bytes(m) + spec_tiles_bytes(l));
        assert(spec_tiles_bytes(l) =~= Seq::<u8>::empty());
        assert(spec_tile_bytes(m) + spec_tiles_bytes(l) =~= spec_tiles_bytes(l) + spec_tile_bytes(
            m,
        ));
    } else {
        assert(l.push(m)[0] == l[0]);
        assert(l.push(m).drop_first() =~= l.drop_first().push(m));
        lemma_tiles_bytes_push(l.drop_first(), m);
        assert(spec_tiles_bytes(l.push(m)) == spec_tile_bytes(l[0]) + spec_tiles_bytes(
            l.drop_first().push(m),
        ));
        assert(spec_tile_bytes(l[0]) + (spec_tiles_bytes(l.drop_first()) + spec_tile_bytes(m)) =~= (
        spec_tile_bytes(l[0]) + spec_tiles_bytes(l.drop_first())) + spec_tile_bytes(m));
        assert(spec_tiles_bytes(l) == spec_tile_bytes(l[0]) + spec_tiles_bytes(l.drop_first()));
    }
}

proof fn lemma_parse_tiles_exact(s: Seq<u8>, pos: int, l: Seq<TileModel>)
    requires
        0 <= pos,
        pos + spec_tiles_bytes(l).len() <= s.len(),
        s.subrange(pos, pos + spec_tiles_bytes(l).len()) == spec_tiles_bytes(l),
        forall|i: int| 0 <= i < l.len() ==> spec_tile_model_wf(#[trigger] l[i]),
    ensures
        spec_parse_tiles(s, pos, l.len() as int) == Some((l, pos + spec_tiles_bytes(l).len())),
    decreases l.len(),
{
    if l.len() == 0 {
        assert(l =~= Seq::<TileModel>::empty());
    } else {
        let hb = spec_tile_bytes(l[0]);
        let tb = spec_tiles_bytes(l.drop_first());
        let full = spec_tiles_bytes(l);
        assert(full == hb + tb);
        lemma_subrange_at(s, pos, full, 0, hb.len() as int);
        assert(full.subrange(0, hb.len() as int) =~= hb);
        lemma_parse_tile_exact(s, pos, l[0]);
        lemma_subrange_at(s, pos, full, hb.len() as int, full.len() as int);
        assert(full.subrange(hb.len() as int, full.len() as int) =~= tb);
        assert(forall|i: int|
            0 <= i < l.drop_first().len() ==> spec_tile_model_wf(#[trigger] l.drop_first()[i]));
        lemma_parse_tiles_exact(s, pos + hb.len(), l.drop_first());
        assert(seq![l[0]] + l.drop_first() =~= l);
    }
}

/// The models of a vector of tiles.
pub open spec fn spec_tile_models(l: Seq<Tile>) -> Seq<TileModel> {
    l.map_values(|t: Tile| spec_tile_model(t))
}

fn write_tiles(out: &mut Vec<u8>, l: &Vec<Tile>)
    requires
        forall|i: int| 0 <= i < l@.len() ==> (#[trigger] l@[i]).wf(),
    ensures
        final(out)@ == old(out)@ + spec_u64_be(l@.len() as u64) + spec_tiles_bytes(
            spec_tile_models(l@),
        ),
{
    write_u64(out, l.len() as u64);
    let n = l.len();
    let mut i: usize = 0;
    while i < n
        invariant
            n == l@.len(),
            i <= n,
            forall|j: int| 0 <= j < l@.len() ==> (#[trigger] l@[j]).wf(),
            out@ == old(out)@ + spec_u64_be(l@.len() as u64) + spec_tiles_bytes(
                spec_tile_models(l@.take(i as int)),
            ),
        decreases n - i,
    {
        write_tile(out, &l[i]);
        proof {
            assert(spec_tile_models(l@.take(i as int)).push(spec_tile_model(l@[i as int]))
                =~= spec_tile_models(l@.take(i as int + 1)));
            lemma_tiles_bytes_push(
                spec_tile_models(l@.take(i as int)),
                spec_tile_model(l@[i as int]),
            );
        }
        i = i + 1;
    }
    proof {
        assert(l@.take(n as int) =~= l@);
    }
}

fn read_tiles(s: &[u8], pos: usize, n: u64) -> (r: Option<(Vec<Tile>, usize)>)
    ensures
        match r {
            Some((l, p2)) => spec_parse_tiles(s@, pos as int, n as int) == Some(
                (spec_tile_models(l@), p2 as int),
            ) && (forall|i: int| 0 <= i < l@.len() ==> (#[trigger] l@[i]).wf()),
            None => spec_parse_tiles(s@, pos as int, n as int) is None,
        },
{
    let mut l: Vec<Tile> = Vec::new();
    let mut cur: usize = pos;
    let mut i: u64 = 0;
    proof {
        assert(spec_tile_models(l@) =~= Seq::<TileModel>::empty());
        match spec_parse_tiles(s@, pos as int, n as int) {
            Some((rest, p)) => {
                assert(Seq::<TileModel>::empty() + rest =~= rest);
            },
            None => {},
        }
    }
    while i < n
        invariant
            i <= n,
            forall|j: int| 0 <= j < l@.len() ==> (#[trigger] l@[j]).wf(),
            spec_parse_tiles(s@, pos as int, n as int) == spec_join_parsed(
                spec_tile_models(l@),
                spec_parse_tiles(s@, cur as int, n as int - i as int),
            ),
        decreases n - i,
    {
        let ghost l_prev = l@;
        match read_tile(s, cur) {
            None => {
                proof {
                    assert(n as int - i as int > 0);
                    assert(spec_parse_tiles(s@, cur as int, n as int - i as int) is None);
                }
                return None;
            },
            Some((t, p2)) => {
                l.push(t);
                cur = p2;
                proof {
                    assert(spec_tile_models(l_prev.push(t)) =~= spec_tile_models(l_prev).push(
                        spec_tile_model(t),
                    ));
                    match spec_parse_tiles(s@, cur as int, n as int - i as int - 1) {
                        Some((rest, p3)) => {
                            assert(spec_tile_models(l_prev) + (seq![spec_tile_model(t)] + rest)
                                =~= spec_tile_models(l_prev).push(spec_tile_model(t)) + rest);
                        },
                        None => {},
                    }
                }
            },
        }
        i = i + 1;
    }
    proof {
        assert(spec_tile_models(l@) + Seq::<TileModel>::empty() =~= spec_tile_models(l@));
    }
    Some((l, cur))
}

// ---------------------------------------------------------------------------
// The optional display name of a Hello
// ---------------------------------------------------------------------------

pub open spec fn spec_name_bytes(name: Option<Seq<char>>) -> Seq<u8> {
    match name {
        None => seq![0u8],
        Some(cs) => seq![1u8] + spec_u64_be(encode_utf8(cs).len() as u64) + encode_utf8(cs),
    }
}

pub open spec fn spec_parse_name(s: Seq<u8>, pos: int) -> Option<(Option<Seq<char>>, int)> {
    match spec_parse_u8(s, pos) {
        None => None,
        Some((tag, p1)) => if tag == 0 {
            Some((None, p1))
        } else if tag == 1 {
            match spec_parse_u64(s, p1) {
                None => None,
                Some((n, p2)) => if p2 + n <= s.len() {
                    let bs = s.subrange(p2, p2 + n);
                    if valid_utf8(bs) {
                        Some((Some(decode_utf8(bs)), p2 + n))
                    } else {
                        None
                    }
                } else {
                    None
                },
            }
        } else {
            None
        },
    }
}

proof fn lemma_parse_name_exact(s: Seq<u8>, pos: int, name: Option<Seq<char>>)
    requires
        0 <= pos,
        pos + spec_name_bytes(name).len() <= s.len(),
        s.subrange(pos, pos + spec_name_bytes(name).len()) == spec_name_bytes(name),
        match name {
            None => true,
            Some(cs) => encode_utf8(cs).len() <= u64::MAX,
        },
    ensures
        spec_parse_name(s, pos) == Some((name, pos + spec_name_bytes(name).len())),
{
    let full = spec_name_bytes(name);
    assert(s[pos] == full[0]) by {
        assert(s.subrange(pos, pos + full.len())[0] == s[pos]);
    }
    match name {
        None => {},
        Some(cs) => {
            let ub = encode_utf8(cs);
            lemma_subrange_at(s, pos, full, 1, 9);
            assert(full.subrange(1, 9) =~= spec_u64_be(ub.len() as u64));
            lemma_parse_u64_exact(s, pos + 1, ub.len() as u64);
            lemma_subrange_at(s, pos, full, 9, full.len() as int);
            assert(full.subrange(9, full.len() as int) =~= ub);
            encode_utf8_valid_utf8(cs);
            encode_utf8_decode_utf8(cs);
        },
    }
}

/// Relies on `String::from_utf8`: it returns `Ok` exactly on valid UTF-8
/// input, and the returned string's UTF-8 bytes are that input.
#[verifier::external_body]
fn bytes_to_string(v: Vec<u8>) -> (r: Option<String>)
    ensures
        r is Some <==> valid_utf8(v@),
        r is Some ==> encode_utf8(r.unwrap()@) == v@,
{
    String::from_utf8(v).ok()
}

fn write_name(out: &mut Vec<u8>, name: &Option<String>)
    ensures
        final(out)@ == old(out)@ + spec_name_bytes(
            match name {
                Option::None => Option::None,
                Option::Some(st) => Option::Some(st@),
            },
        ),
{
    match name {
        Option::None => {
            out.push(0u8);
            proof {
                assert(out@ =~= old(out)@ + spec_name_bytes(Option::None));
            }
        },
        Option::Some(st) => {
            out.push(1u8);
            let bs: &[u8] = st.as_str().as_bytes();
            write_u64(out, bs.len() as u64);
            let n = bs.len();
            let mut i: usize = 0;
            while i < n
                invariant
                    n == bs@.len(),
                    i <= n,
                    out@ == old(out)@ + seq![1u8] + spec_u64_be(bs@.len() as u64) + bs@.take(
                        i as int,
                    ),
                decreases n - i,
            {
                out.push(bs[i]);
                proof {
                    assert(bs@.take(i as int).push(bs@[i as int]) =~= bs@.take(i as int + 1));
                    assert(out@ =~= old(out)@ + seq![1u8] + spec_u64_be(bs@.len() as u64)
                        + bs@.take(i as int + 1));
                }
                i = i + 1;
            }
            proof {
                assert(bs@.take(n as int) =~= bs@);
                assert(out@ =~= old(out)@ + spec_name_bytes(Option::Some(st@)));
            }
        },
    }
}

fn read_bytes_vec(s: &[u8], pos: usize, n: usize) -> (r: Option<(Vec<u8>, usize)>)
    ensures
        match r {
            Some((v, p2)) => pos + n <= s@.len() && v@ == s@.subrange(pos as int, pos as int
                + n as int) && p2 == pos + n,
            None => pos + n > s@.len(),
        },
{
    if pos <= s.len() && n <= s.len() - pos {
        let _buffer_len: usize = s.len();
        let mut v: Vec<u8> = Vec::new();
        let mut i: usize = 0;
        while i < n
            invariant
                pos + n <= s@.len(),
                s@.len() <= usize::MAX,
                i <= n,
                v@ =~= s@.subrange(pos as int, pos as int + i as int),
            decreases n - i,
        {
            v.push(s[pos + i]);
            proof {
                assert(v@ =~= s@.subrange(pos as int, pos as int + i as int + 1));
            }
            i = i + 1;
        }
        Some((v, pos + n))
    } else {
        None
    }
}

fn read_name(s: &[u8], pos: usize) -> (r: Option<(Option<String>, usize)>)
    ensures
        match r {
            Some((nm, p2)) => spec_parse_name(s@, pos as int) == Some(
                (
                    match nm {
                        Option::None => Option::None,
                        Option::Some(st) => Option::Some(st@),
                    },
                    p2 as int,
                ),
            ),
            None => spec_parse_name(s@, pos as int) is None,
        },
{
    match read_u8(s, pos) {
        None => None,
        Some((tag, p1)) => if tag == 0 {
            Some((Option::None, p1))
        } else if tag == 1 {
            match read_u64(s, p1) {
                None => None,
                Some((n, p2)) => {
                    if n <= usize::MAX as u64 {
                        match read_bytes_vec(s, p2, n as usize) {
                            None => None,
                            Some((bs, p3)) => {
                                let ghost bseq = s@.subrange(p2 as int, p2 as int + n as int);
                                match bytes_to_string(bs) {
                                    Option::None => None,
                                    Option::Some(st) => {
                                        proof {
                                            encode_utf8_decode_utf8(st@);
                                        }
                                        Some((Option::Some(st), p3))
                                    },
                                }
                            },
                        }
                    } else {
                        // Longer than any buffer on this machine, so the
                        // payload cannot be present.
                        let _buffer_len: usize = s.len();
                        proof {
                            assert(p2 as int + n as int > s@.len());
                        }
                        None
                    }
                },
            }
        } else {
            None
        },
    }
}

// ---------------------------------------------------------------------------
// The packet
// ---------------------------------------------------------------------------

/// The main control packet of the peer-to-peer network.
#[derive(Debug)]
pub enum MirrorPacket {
    /// Handshake packet, sent first by both sides of a fresh connection to
    /// announce an optional display name and the sender's listen-port.
    Hello(Option<String>, u16),
    /// Gossip packet distributing known peer listen-addresses, which helps
    /// peers build an up-to-date view of the mesh.
    GossipPeers(Vec<PeerAddr>),
    /// Scene synchronization ahead of render requests.  The scene travels
    /// as the opaque serialized bytes the render layer produced; this
    /// crate frames and checks them but does not look inside.
    SyncScene(Vec<u8>),
    /// Request that the peer render a batch of tiles.
    RenderTileRequest {
        tiles: Vec<TileRenderWork>,
        image_size: (usize, usize),
        samples_per_pixel: usize,
    },
    /// Reply to a `RenderTileRequest`: the rendered tiles, positionally
    /// aligned with the request, and the wall-clock render time in
    /// milliseconds.
    RenderTileResponse { tiles: Vec<Tile>, render_time: u128 },
}

/// The mathematical shape of a packet: what the codec round-trips.
pub enum PacketModel {
    Hello(Option<Seq<char>>, u16),
    GossipPeers(Seq<PeerAddr>),
    SyncScene(Seq<u8>),
    RenderTileRequest {
        tiles: Seq<TileRenderWork>,
        image_size: (usize, usize),
        samples_per_pixel: usize,
    },
    RenderTileResponse { tiles: Seq<TileModel>, render_time: u128 },
}

impl MirrorPacket {
    /// The model of this in-memory packet.
    pub open spec fn model(self) -> PacketModel {
        match self {
            MirrorPacket::Hello(name, port) => PacketModel::Hello(
                match name {
                    Option::None => Option::None,
                    Option::Some(st) => Option::Some(st@),
                },
                port,
            ),
            MirrorPacket::GossipPeers(l) => PacketModel::GossipPeers(l@),
            MirrorPacket::SyncScene(b) => PacketModel::SyncScene(b@),
            MirrorPacket::RenderTileRequest { tiles, image_size, samples_per_pixel } =>
                PacketModel::RenderTileRequest {
                tiles: tiles@,
                image_size,
                samples_per_pixel,
            },
            MirrorPacket::RenderTileResponse { tiles, render_time } =>
                PacketModel::RenderTileResponse { tiles: spec_tile_models(tiles@), render_time },
        }
    }

    /// Every tile of a response is a well-formed image; the other variants
    /// carry nothing with an invariant.
    pub open spec fn wf(self) -> bool {
        match self {
            MirrorPacket::RenderTileResponse { tiles, .. } => forall|i: int|
                0 <= i < tiles@.len() ==> (#[trigger] tiles@[i]).wf(),
            _ => true,
        }
    }
}

/// The packet models the codec is total on.  Every packet that exists in
/// memory satisfies this: the bounds only rule out sequences too long for
/// any buffer.
pub open spec fn spec_packet_wf(m: PacketModel) -> bool {
    match m {
        PacketModel::Hello(name, _) => match name {
            Option::None => true,
            Option::Some(cs) => encode_utf8(cs).len() <= u64::MAX,
        },
        PacketModel::GossipPeers(l) => l.len() <= u64::MAX,
        PacketModel::SyncScene(b) => b.len() <= u64::MAX,
        PacketModel::RenderTileRequest { tiles, .. } => tiles.len() <= u64::MAX,
        PacketModel::RenderTileResponse { tiles, .. } => tiles.len() <= u64::MAX && forall|i: int|
            0 <= i < tiles.len() ==> spec_tile_model_wf(#[trigger] tiles[i]),
    }
}

/// The byte encoding of a packet: one tag byte, then the fields, integers
/// big-endian and sequences preceded by their count.
pub open spec fn spec_packet_bytes(m: PacketModel) -> Seq<u8> {
    match m {
        PacketModel::Hello(name, port) => seq![0u8] + spec_name_bytes(name) + spec_u16_be(port),
        PacketModel::GossipPeers(l) => seq![1u8] + spec_u64_be(l.len() as u64) + spec_addrs_bytes(
            l,
        ),
        PacketModel::SyncScene(b) => seq![2u8] + spec_u64_be(b.len() as u64) + b,
        PacketModel::RenderTileRequest { tiles, image_size, samples_per_pixel } => seq![3u8]
            + spec_u64_be(tiles.len() as u64) + spec_works_bytes(tiles) + spec_u64_be(
            image_size.0 as u64,
        ) + spec_u64_be(image_size.1 as u64) + spec_u64_be(samples_per_pixel as u64),
        PacketModel::RenderTileResponse { tiles, render_time } => seq![4u8] + spec_u64_be(
            tiles.len() as u64,
        ) + spec_tiles_bytes(tiles) + spec_u128_be(render_time),
    }
}

/// What a payload decodes to: the packet, if the bytes are exactly one
/// well-formed encoding, and nothing otherwise.
pub open spec fn spec_parse_packet(s: Seq<u8>) -> Option<PacketModel> {
    match spec_parse_u8(s, 0) {
        None => None,
        Some((tag, p1)) => if tag == 0 {
            match spec_parse_name(s, p1) {
                None => None,
                Some((nm, p2)) => match spec_parse_u16(s, p2) {
                    None => None,
                    Some((port, p3)) => if p3 == s.len() {
                        Some(PacketModel::Hello(nm, port))
                    } else {
                        None
                    },
                },
            }
        } else if tag == 1 {
            match spec_parse_u64(s, p1) {
                None => None,
                Some((n, p2)) => match spec_parse_addrs(s, p2, n as int) {
                    None => None,
                    Some((l, p3)) => if p3 == s.len() {
                        Some(PacketModel::GossipPeers(l))
                    } else {
                        None
                    },
                },
            }
        } else if tag == 2 {
            match spec_parse_u64(s, p1) {
                None => None,
                Some((n, p2)) => if p2 + n == s.len() {
                    Some(PacketModel::SyncScene(s.subrange(p2, p2 + n)))
                } else {
                    None
                },
            }
        } else if tag == 3 {
            match spec_parse_u64(s, p1) {
                None => None,
                Some((n, p2)) => match spec_parse_works(s, p2, n as int) {
                    None => None,
                    Some((tiles, p3)) => match spec_parse_usize(s, p3) {
                        None => None,
                        Some((w, p4)) => match spec_parse_usize(s, p4) {
                            None => None,
                            Some((h, p5)) => match spec_parse_usize(s, p5) {
                                None => None,
                                Some((spp, p6)) => if p6 == s.len() {
                                    Some(
                                        PacketModel::RenderTileRequest {
                                            tiles,
                                            image_size: (w, h),
                                            samples_per_pixel: spp,
                                        },
                                    )
                                } else {
                                    None
                                },
                            },
                        },
                    },
                },
            }
        } else if tag == 4 {
            match spec_parse_u64(s, p1) {
                None => None,
                Some((n, p2)) => match spec_parse_tiles(s, p2, n as int) {
                    None => None,
                    Some((tiles, p3)) => match spec_parse_u128(s, p3) {
                        None => None,
                        Some((rt, p4)) => if p4 == s.len() {
                            Some(PacketModel::RenderTileResponse { tiles, render_time: rt })
                        } else {
                            None
                        },
                    },
                },
            }
        } else {
            None
        },
    }
}

/// What the codec can fail with: an oversize payload on the write path, a
/// malformed payload on the read path.  Transport errors belong to the
/// layer that owns the socket.
#[derive(Debug, Clone, Copy, PartialEq, Eq, Structural)]
pub enum PacketError {
    Encode,
    Decode,
}

/// Encode a packet's payload bytes.
pub fn encode_packet(p: &MirrorPacket) -> (out: Vec<u8>)
    requires
        p.wf(),
    ensures
        out@ == spec_packet_bytes(p.model()),
{
    let mut out: Vec<u8> = Vec::new();
    match p {
        MirrorPacket::Hello(name, port) => {
            out.push(0u8);
            write_name(&mut out, name);
            write_u16(&mut out, *port);
            proof {
                assert(out@ =~= spec_packet_bytes(p.model()));
            }
        },
        MirrorPacket::GossipPeers(l) => {
            out.push(1u8);
            write_addrs(&mut out, l);
            proof {
                assert(out@ =~= spec_packet_bytes(p.model()));
            }
        },
        MirrorPacket::SyncScene(b) => {
            out.push(2u8);
            write_u64(&mut out, b.len() as u64);
            let n = b.len();
            let mut i: usize = 0;
            while i < n
                invariant
                    n == b@.len(),
                    i <= n,
                    out@ == seq![2u8] + spec_u64_be(b@.len() as u64) + b@.take(i as int),
                decreases n - i,
            {
                out.push(b[i]);
                proof {
                    assert(out@ =~= seq![2u8] + spec_u64_be(b@.len() as u64) + b@.take(
                        i as int + 1,
                    ));
                }
                i = i + 1;
            }
            proof {
                assert(b@.take(n as int) =~= b@);
                assert(out@ =~= spec_packet_bytes(p.model()));
            }
        },
        MirrorPacket::RenderTileRequest { tiles, image_size, samples_per_pixel } => {
            out.push(3u8);
            write_works(&mut out, tiles);
            write_usize(&mut out, image_size.0);
            write_usize(&mut out, image_size.1);
            write_usize(&mut out, *samples_per_pixel);
            proof {
                assert(out@ =~= spec_packet_bytes(p.model()));
            }
        },
        MirrorPacket::RenderTileResponse { tiles, render_time } => {
            out.push(4u8);
            write_tiles(&mut out, tiles);
            write_u128(&mut out, *render_time);
            proof {
                assert(out@ =~= spec_packet_bytes(p.model()));
            }
        },
    }
    out
}

/// Decode one payload.  Succeeds exactly when the bytes are one complete,
/// well-formed packet encoding; anything else is a `Decode` error.
pub fn decode_packet(bytes: &[u8]) -> (r: Result<MirrorPacket, PacketError>)
    ensures
        match r {
            Ok(p) => spec_parse_packet(bytes@) == Some(p.model()) && p.wf(),
            Err(e) => spec_parse_packet(bytes@) is None && e == PacketError::Decode,
        },
{
    match read_u8(bytes, 0) {
        None => Err(PacketError::Decode),
        Some((tag, p1)) => {
            if tag == 0 {
                match read_name(bytes, p1) {
                    None => Err(PacketError::Decode),
                    Some((nm, p2)) => match read_u16(bytes, p2) {
                        None => Err(PacketError::Decode),
                        Some((port, p3)) => if p3 == bytes.len() {
                            Ok(MirrorPacket::Hello(nm, port))
                        } else {
                            Err(PacketError::Decode)
                        },
                    },
                }
            } else if tag == 1 {
                match read_u64(bytes, p1) {
                    None => Err(PacketError::Decode),
                    Some((n, p2)) => match read_addrs(bytes, p2, n) {
                        None => Err(PacketError::Decode),
                        Some((l, p3)) => if p3 == bytes.len() {
                            Ok(MirrorPacket::GossipPeers(l))
                        } else {
                            Err(PacketError::Decode)
                        },
                    },
                }
            } else if tag == 2 {
                match read_u64(bytes, p1) {
                    None => Err(PacketError::Decode),
                    Some((n, p2)) => {
                        if n <= usize::MAX as u64 {
                            match read_bytes_vec(bytes, p2, n as usize) {
                                None => Err(PacketError::Decode),
                                Some((b, p3)) => if p3 == bytes.len() {
                                    Ok(MirrorPacket::SyncScene(b))
                                } else {
                                    Err(PacketError::Decode)
                                },
                            }
                        } else {
                            let _buffer_len: usize = bytes.len();
                            proof {
                                assert(p2 as int + n as int != bytes@.len());
                            }
                            Err(PacketError::Decode)
                        }
                    },
                }
            } else if tag == 3 {
                match read_u64(bytes, p1) {
                    None => Err(PacketError::Decode),
                    Some((n, p2)) => match read_works(bytes, p2, n) {
                        None => Err(PacketError::Decode),
                        Some((tiles, p3)) => match read_usize(bytes, p3) {
                            None => Err(PacketError::Decode),
                            Some((w, p4)) => match read_usize(bytes, p4) {
                                None => Err(PacketError::Decode),
                                Some((h, p5)) => match read_usize(bytes, p5) {
                                    None => Err(PacketError::Decode),
                                    Some((spp, p6)) => if p6 == bytes.len() {
                                        Ok(
                                            MirrorPacket::RenderTileRequest {
                                                tiles,
                                                image_size: (w, h),
                                                samples_per_pixel: spp,
                                            },
                                        )
                                    } else {
                                        Err(PacketError::Decode)
                                    },
                                },
                            },
                        },
                    },
                }
            } else if tag == 4 {
                match read_u64(bytes, p1) {
                    None => Err(PacketError::Decode),
                    Some((n, p2)) => match read_tiles(bytes, p2, n) {
                        None => Err(PacketError::Decode),
                        Some((tiles, p3)) => match read_u128(bytes, p3) {
                            None => Err(PacketError::Decode),
                            Some((rt, p4)) => if p4 == bytes.len() {
                                Ok(MirrorPacket::RenderTileResponse { tiles, render_time: rt })
                            } else {
                                Err(PacketError::Decode)
                            },
                        },
                    },
                }
            } else {
                Err(PacketError::Decode)
            }
        },
    }
}

/// Frame a packet for the wire: a 4-byte big-endian length prefix followed
/// by the payload.  A payload longer than the prefix can carry is an
/// `Encode` error.
pub fn frame_packet(p: &MirrorPacket) -> (r: Result<Vec<u8>, PacketError>)
    requires
        p.wf(),
    ensures
        match r {
            Ok(f) => spec_packet_bytes(p.model()).len() <= u32::MAX && f@ == spec_u32_be(
                spec_packet_bytes(p.model()).len() as u32,
            ) + spec_packet_bytes(p.model()),
            Err(e) => spec_packet_bytes(p.model()).len() > u32::MAX && e == PacketError::Encode,
        },
{
    let mut payload = encode_packet(p);
    if payload.len() <= u32::MAX as usize {
        let mut out: Vec<u8> = Vec::new();
        write_u32(&mut out, payload.len() as u32);
        out.append(&mut payload);
        proof {
            assert(out@ =~= spec_u32_be(spec_packet_bytes(p.model()).len() as u32)
                + spec_packet_bytes(p.model()));
        }
        Ok(out)
    } else {
        Err(PacketError::Encode)
    }
}

/// Read a frame's length prefix.
pub fn frame_len(header: &[u8]) -> (r: Option<u32>)
    ensures
        match r {
            Some(v) => spec_parse_u32(header@, 0) == Some((v, 4int)),
            None => spec_parse_u32(header@, 0) is None,
        },
{
    match read_u32(header, 0) {
        None => None,
        Some((v, _p)) => Some(v),
    }
}

#[verifier::rlimit(100)]
proof fn lemma_round_trip_hello(name: Option<Seq<char>>, port: u16)
    requires
        spec_packet_wf(PacketModel::Hello(name, port)),
    ensures
        spec_parse_packet(spec_packet_bytes(PacketModel::Hello(name, port))) == Some(
            PacketModel::Hello(name, port),
        ),
{
    let b = spec_packet_bytes(PacketModel::Hello(name, port));
    assert(b.subrange(0, b.len() as int) =~= b);
    let nb = spec_name_bytes(name);
    assert(b[0] == 0);
    lemma_subrange_at(b, 0, b, 1, 1 + nb.len() as int);
    assert(b.subrange(1, 1 + nb.len() as int) =~= nb);
    lemma_parse_name_exact(b, 1, name);
    lemma_subrange_at(b, 0, b, 1 + nb.len() as int, b.len() as int);
    assert(b.subrange(1 + nb.len() as int, b.len() as int) =~= spec_u16_be(port));
    lemma_parse_u16_exact(b, 1 + nb.len() as int, port);
}

#[verifier::rlimit(100)]
proof fn lemma_round_trip_gossip(l: Seq<PeerAddr>)
    requires
        spec_packet_wf(PacketModel::GossipPeers(l)),
    ensures
        spec_parse_packet(spec_packet_bytes(PacketModel::GossipPeers(l))) == Some(
            PacketModel::GossipPeers(l),
        ),
{
    let b = spec_packet_bytes(PacketModel::GossipPeers(l));
    assert(b.subrange(0, b.len() as int) =~= b);
    assert(b[0] == 1);
    lemma_subrange_at(b, 0, b, 1, 9);
    assert(b.subrange(1, 9) =~= spec_u64_be(l.len() as u64));
    lemma_parse_u64_exact(b, 1, l.len() as u64);
    lemma_subrange_at(b, 0, b, 9, b.len() as int);
    assert(b.subrange(9, b.len() as int) =~= spec_addrs_bytes(l));
    lemma_parse_addrs_exact(b, 9, l);
    assert((l.len() as u64) as int == l.len() as int);
}

#[verifier::rlimit(100)]
proof fn lemma_round_trip_scene(sb: Seq<u8>)
    requires
        spec_packet_wf(PacketModel::SyncScene(sb)),
    ensures
        spec_parse_packet(spec_packet_bytes(PacketModel::SyncScene(sb))) == Some(
            PacketModel::SyncScene(sb),
        ),
{
    let b = spec_packet_bytes(PacketModel::SyncScene(sb));
    assert(b.subrange(0, b.len() as int) =~= b);
    assert(b[0] == 2);
    lemma_subrange_at(b, 0, b, 1, 9);
    assert(b.subrange(1, 9) =~= spec_u64_be(sb.len() as u64));
    lemma_parse_u64_exact(b, 1, sb.len() as u64);
    lemma_subrange_at(b, 0, b, 9, b.len() as int);
    assert(b.subrange(9, b.len() as int) =~= sb);
}

#[verifier::rlimit(100)]
proof fn lemma_round_trip_request(
    tiles: Seq<TileRenderWork>,
    image_size: (usize, usize),
    samples_per_pixel: usize,
)
    requires
        spec_packet_wf(
            PacketModel::RenderTileRequest { tiles, image_size, samples_per_pixel },
        ),
    ensures
        spec_parse_packet(
            spec_packet_bytes(
                PacketModel::RenderTileRequest { tiles, image_size, samples_per_pixel },
            ),
        ) == Some(PacketModel::RenderTileRequest { tiles, image_size, samples_per_pixel }),
{
    let b = spec_packet_bytes(
        PacketModel::RenderTileRequest { tiles, image_size, samples_per_pixel },
    );
    assert(b.subrange(0, b.len() as int) =~= b);
    let wb = spec_works_bytes(tiles);
    assert(b[0] == 3);
    lemma_subrange_at(b, 0, b, 1, 9);
    assert(b.subrange(1, 9) =~= spec_u64_be(tiles.len() as u64));
    lemma_parse_u64_exact(b, 1, tiles.len() as u64);
    lemma_subrange_at(b, 0, b, 9, 9 + wb.len() as int);
    assert(b.subrange(9, 9 + wb.len() as int) =~= wb);
    lemma_parse_works_exact(b, 9, tiles);
    let q = 9 + wb.len() as int;
    lemma_subrange_at(b, 0, b, q, q + 8);
    assert(b.subrange(q, q + 8) =~= spec_u64_be(image_size.0 as u64));
    lemma_parse_usize_exact(b, q, image_size.0);
    lemma_subrange_at(b, 0, b, q + 8, q + 16);
    assert(b.subrange(q + 8, q + 16) =~= spec_u64_be(image_size.1 as u64));
    lemma_parse_usize_exact(b, q + 8, image_size.1);
    lemma_subrange_at(b, 0, b, q + 16, q + 24);
    assert(b.subrange(q + 16, q + 24) =~= spec_u64_be(samples_per_pixel as u64));
    lemma_parse_usize_exact(b, q + 16, samples_per_pixel);
}

#[verifier::rlimit(100)]
proof fn lemma_round_trip_response(tiles: Seq<TileModel>, render_time: u128)
    requires
        spec_packet_wf(PacketModel::RenderTileResponse { tiles, render_time }),
    ensures
        spec_parse_packet(
            spec_packet_bytes(PacketModel::RenderTileResponse { tiles, render_time }),
        ) == Some(PacketModel::RenderTileResponse { tiles, render_time }),
{
    let b = spec_packet_bytes(PacketModel::RenderTileResponse { tiles, render_time });
    assert(b.subrange(0, b.len() as int) =~= b);
    let tb = spec_tiles_bytes(tiles);
    assert(b[0] == 4);
    lemma_subrange_at(b, 0, b, 1, 9);
    assert(b.subrange(1, 9) =~= spec_u64_be(tiles.len() as u64));
    lemma_parse_u64_exact(b, 1, tiles.len() as u64);
    lemma_subrange_at(b, 0, b, 9, 9 + tb.len() as int);
    assert(b.subrange(9, 9 + tb.len() as int) =~= tb);
    lemma_parse_tiles_exact(b, 9, tiles);
    lemma_subrange_at(b, 0, b, 9 + tb.len() as int, b.len() as int);
    assert(b.subrange(9 + tb.len() as int, b.len() as int) =~= spec_u128_be(render_time));
    lemma_parse_u128_exact(b, 9 + tb.len() as int, render_time);
}

/// Decoding an encoded packet gives the packet back: for every packet
/// model within this machine's bounds,
/// `spec_parse_packet(spec_packet_bytes(m)) == Some(m)`.  Together with the
/// contracts of `encode_packet` and `decode_packet`, which are written
/// against the same two specification functions, this says that decoding
/// an encoded in-memory packet returns `Ok` with a packet of the same
/// model.
pub proof fn lemma_packet_round_trip(m: PacketModel)
    requires
        spec_packet_wf(m),
    ensures
        spec_parse_packet(spec_packet_bytes(m)) == Some(m),
{
    match m {
        PacketModel::Hello(name, port) => lemma_round_trip_hello(name, port),
        PacketModel::GossipPeers(l) => lemma_round_trip_gossip(l),
        PacketModel::SyncScene(sb) => lemma_round_trip_scene(sb),
        PacketModel::RenderTileRequest { tiles, image_size, samples_per_pixel } =>
            lemma_round_trip_request(tiles, image_size, samples_per_pixel),
        PacketModel::RenderTileResponse { tiles, render_time } => lemma_round_trip_response(
            tiles,
            render_time,
        ),
    }
}

} // verus!
