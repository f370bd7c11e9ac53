//! The wire frame: layout, checksum and decoding.

use vstd::prelude::*;

verus! {

/// First header byte of every frame.
pub const FRAME_HEADER_1: u8 = 0x3C;

/// Second header byte of every frame.
pub const FRAME_HEADER_2: u8 = 0x02;

/// Total length of a frame in bytes, checksum included.
pub const FRAME_LEN: usize = 17;

/// Number of leading bytes covered by the checksum.
pub const CHECKED_LEN: usize = 16;

/// Sum of all bytes of `s`, as an unbounded integer.
pub open spec fn byte_sum(s: Seq<u8>) -> nat
    decreases s.len(),
{
    if s.len() == 0 {
        0
    } else {
        byte_sum(s.drop_last()) + s.last() as nat
    }
}

/// The sensor's checksum of `s`: the low eight bits of the byte sum.
pub open spec fn checksum_of(s: Seq<u8>) -> u8 {
    (byte_sum(s) % 256) as u8
}

/// Computes the checksum of `data`: a 16-bit wrapping sum of its bytes,
/// truncated to the low eight bits.
pub fn calculate_checksum(data: &[u8]) -> (r: u8)
    ensures
        r == checksum_of(data@),
{
    let mut sum: u16 = 0;
    let mut i: usize = 0;
    while i < data.len()
        invariant
            i <= data@.len(),
            sum as nat == byte_sum(data@.take(i as int)) % 65536,
        decreases data@.len() - i,
    {
        let b = data[i];
        proof {
            let t = data@.take(i as int + 1);
            assert(t.drop_last() == data@.take(i as int));
            assert(byte_sum(t) == byte_sum(data@.take(i as int)) + b as nat);
        }
        sum = sum.wrapping_add(b as u16);
        i = i + 1;
    }
    proof {
        assert(data@.take(data@.len() as int) == data@);
        let total = byte_sum(data@);
        assert((total % 65536) % 256 == total % 256) by (nonlinear_arith);
        let s = sum;
        assert(s & 0xFF == s % 256) by (bit_vector);
    }
    (sum & 0xFF) as u8
}

/// One decoded telemetry record.
///
/// Temperature and humidity are kept as their integer and tenth bytes exactly
/// as received; the physical value of each is `int + tenths / 10`. A tenth byte
/// of ten or more is kept as it is, so `25` and `15` stand for `26.5`.
#[derive(Clone, Copy, Debug, PartialEq, Eq, Structural)]
pub struct SensorData {
    pub eco2: u16,
    pub ech2o: u16,
    pub tvoc: u16,
    pub pm2_5: u16,
    pub pm10: u16,
    pub temp_int: u8,
    pub temp_tenths: u8,
    pub hum_int: u8,
    pub hum_tenths: u8,
}

/// The big-endian 16-bit value of the bytes `hi`, `lo`.
pub open spec fn be16(hi: u8, lo: u8) -> u16 {
    (hi as nat * 256 + lo as nat) as u16
}

/// Whether `f` starts with a complete frame whose header bytes and checksum
/// are right.
pub open spec fn frame_valid(f: Seq<u8>) -> bool {
    &&& f.len() >= FRAME_LEN
    &&& f[0] == FRAME_HEADER_1
    &&& f[1] == FRAME_HEADER_2
    &&& f[16] == checksum_of(f.take(CHECKED_LEN as int))
}

/// The record carried by the frame at the start of `f`.
pub open spec fn decode(f: Seq<u8>) -> SensorData
    recommends
        f.len() >= FRAME_LEN,
{
    SensorData {
        eco2: be16(f[2], f[3]),
        ech2o: be16(f[4], f[5]),
        tvoc: be16(f[6], f[7]),
        pm2_5: be16(f[8], f[9]),
        pm10: be16(f[10], f[11]),
        temp_int: f[12],
        temp_tenths: f[13],
        hum_int: f[14],
        hum_tenths: f[15],
    }
}

/// Reads a big-endian 16-bit integer from two bytes.
pub fn read_be16(hi: u8, lo: u8) -> (r: u16)
    ensures
        r == be16(hi, lo),
{
    hi as u16 * 256 + lo as u16
}

/// Validates the frame at the start of `buffer` and decodes it.
///
/// Returns `None` when fewer than seventeen bytes are given, when a header
/// byte is wrong, or when the checksum byte differs from the checksum of the
/// first sixteen bytes. Bytes after the seventeenth are ignored.
pub fn parse_frame(buffer: &[u8]) -> (r: Option<SensorData>)
    ensures
        r == (if frame_valid(buffer@) {
            Some(decode(buffer@))
        } else {
            None
        }),
{
    if buffer.len() < FRAME_LEN {
        return None;
    }
    if buffer[0] != FRAME_HEADER_1 || buffer[1] != FRAME_HEADER_2 {
        return None;
    }
    let calculated = calculate_checksum(vstd::slice::slice_subrange(buffer, 0, CHECKED_LEN));
    proof {
        assert(buffer@.subrange(0, CHECKED_LEN as int) == buffer@.take(CHECKED_LEN as int));
    }
    if calculated != buffer[16] {
        return None;
    }
    Some(SensorData {
        eco2: read_be16(buffer[2], buffer[3]),
        ech2o: read_be16(buffer[4], buffer[5]),
        tvoc: read_be16(buffer[6], buffer[7]),
        pm2_5: read_be16(buffer[8], buffer[9]),
        pm10: read_be16(buffer[10], buffer[11]),
        temp_int: buffer[12],
        temp_tenths: buffer[13],
        hum_int: buffer[14],
        hum_tenths: buffer[15],
    })
}

} // verus!
