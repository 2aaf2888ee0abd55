//! The fixed-width wire codec for observation batches.
//!
//! A batch is one byte of record count, two bytes of day offset from the
//! 1970-01-01 epoch (big-endian), then six bytes per record: two bytes of
//! station id biased by 40000, and a four-byte word packing three 10-bit
//! quantized decicelsius temperatures (max in bits 29..20, min in bits 19..10,
//! average in bits 9..0).

use vstd::arithmetic::div_mod::{
    lemma_fundamental_div_mod_converse,
    lemma_mod_multiples_vanish,
    lemma_small_mod,
};
use vstd::prelude::*;

verus! {

/// The least station id the wire format can carry.
pub const STATION_ID_BASE: u32 = 40000;

/// The greatest station id the wire format can carry.
pub const STATION_ID_MAX: u32 = 105535;

/// Why a batch could not be encoded.
#[derive(Clone, Copy, Debug, PartialEq, Eq, Structural)]
pub enum EncodeError {
    /// More than 255 records in one batch.
    TooManyRecords,
    /// A record's station id lies outside `[STATION_ID_BASE, STATION_ID_MAX]`.
    StationIdOutOfRange,
}

/// Why a byte string could not be decoded.
#[derive(Clone, Copy, Debug, PartialEq, Eq, Structural)]
pub enum DecodeError {
    /// Fewer bytes than the header plus the announced records need.
    Truncated,
}

/// Quantization of a decicelsius value to the unsigned 10-bit wire field:
/// bias by 512, then keep the low ten bits. Values in `[-512, 511]` map
/// one-to-one onto `[0, 1023]`; values outside wrap deterministically.
pub open spec fn spec_quantize(v: int) -> int {
    (v + 512) % 1024
}

/// Inverse of quantization on the 10-bit range: unbias by 512.
pub open spec fn spec_dequantize(q: int) -> int {
    q - 512
}

/// Quantization is left-inverted by dequantization on the representable range.
pub proof fn lemma_quantize_round_trip(v: int)
    requires
        -512 <= v <= 511,
    ensures
        spec_dequantize(spec_quantize(v)) == v,
{
    lemma_small_mod((v + 512) as nat, 1024);
}

/// Quantizes a decicelsius value to the 10-bit wire field.
pub fn quantize(v: i32) -> (r: u32)
    ensures
        r == spec_quantize(v as int),
        r < 1024,
{
    let shifted: u64 = ((v as i64) + 512 + 0x8000_0000) as u64;
    proof {
        lemma_mod_multiples_vanish(0x200000, v as int + 512, 1024);
    }
    (shifted % 1024) as u32
}

/// Recovers the decicelsius value of a 10-bit wire field.
pub fn dequantize(q: u32) -> (r: i32)
    requires
        q < 1024,
    ensures
        r == spec_dequantize(q as int),
        -512 <= r <= 511,
{
    (q as i32) - 512
}

/// One station's reading for one batch tick: all temperatures are in
/// decicelsius (tenths of one degree Celsius).
#[derive(Clone, Copy, Debug, PartialEq, Eq, Structural)]
pub struct ObservationPointData {
    /// The reporting station's id.
    pub id: u32,
    /// Daily average temperature, decicelsius.
    pub average: i32,
    /// Daily maximum temperature, decicelsius.
    pub max: i32,
    /// Daily minimum temperature, decicelsius.
    pub min: i32,
}

/// A character the textual temperature format may contain.
pub open spec fn is_temp_char(c: char) -> bool {
    c == '-' || c == '.' || ('0' <= c && c <= '9')
}

/// The unsigned digit value of a temperature string: every digit is taken
/// left to right, scaling by ten; minus signs and the decimal point are
/// skipped, so `"12.3"` reads as 123.
pub open spec fn spec_temp_magnitude(s: Seq<char>) -> int
    decreases s.len(),
{
    if s.len() == 0 {
        0
    } else {
        let prefix = spec_temp_magnitude(s.drop_last());
        let c = s.last();
        if '0' <= c && c <= '9' {
            prefix * 10 + (c as int - '0' as int)
        } else {
            prefix
        }
    }
}

/// The sign of a temperature string: negative when any minus sign occurs.
pub open spec fn spec_temp_sign(s: Seq<char>) -> int {
    if s.contains('-') {
        -1
    } else {
        1
    }
}

/// The decicelsius value a temperature string denotes.
pub open spec fn spec_parse_temp(s: Seq<char>) -> int {
    spec_temp_sign(s) * spec_temp_magnitude(s)
}

/// Ten to the `n`.
pub open spec fn pow10(n: nat) -> int
    decreases n,
{
    if n == 0 {
        1
    } else {
        10 * pow10((n - 1) as nat)
    }
}

proof fn lemma_temp_magnitude_bound(s: Seq<char>)
    ensures
        0 <= spec_temp_magnitude(s) < pow10(s.len()),
    decreases s.len(),
{
    if s.len() > 0 {
        lemma_temp_magnitude_bound(s.drop_last());
    }
}

impl ObservationPointData {
    /// The reporting station's id.
    pub fn point_id(&self) -> (r: u32)
        ensures
            r == self.id,
    {
        self.id
    }

    /// Parses a decimal temperature string such as `"-3.5"` into decicelsius
    /// (here, -35): digits accumulate left to right, the decimal point is
    /// skipped, and a minus sign anywhere negates the result.
    pub fn parse_temp(s: &str) -> (r: i32)
        requires
            forall|i: int| 0 <= i < s@.len() ==> is_temp_char(#[trigger] s@[i]),
            s@.len() <= 9,
        ensures
            r as int == spec_parse_temp(s@),
    {
        let len = s.unicode_len();
        let mut res: i32 = 0;
        let mut flag: i32 = 1;
        let mut i: usize = 0;
        while i < len
            invariant
                i <= len,
                len == s@.len(),
                s@.len() <= 9,
                forall|k: int| 0 <= k < s@.len() ==> is_temp_char(#[trigger] s@[k]),
                res as int == spec_temp_magnitude(s@.take(i as int)),
                0 <= res as int,
                (res as int) < pow10(i as nat),
                flag as int == spec_temp_sign(s@.take(i as int)),
            decreases len - i,
        {
            let c = s.get_char(i);
            proof {
                assert(s@.take(i + 1).drop_last() =~= s@.take(i as int));
                assert(s@.take(i + 1).last() == s@[i as int]);
                assert(pow10(9) == 1000000000) by {
                    reveal_with_fuel(pow10, 10);
                }
                lemma_pow10_le(i as nat, 8);
                if s@.take(i + 1).contains('-') && !s@.take(i as int).contains('-') && s@[i as int]
                    != '-' {
                    let j = choose|j: int| 0 <= j < i + 1 && #[trigger] s@.take(i + 1)[j] == '-';
                    assert(s@.take(i as int)[j] == '-');
                }
                if s@.take(i as int).contains('-') {
                    let j = choose|j: int| 0 <= j < i && #[trigger] s@.take(i as int)[j] == '-';
                    assert(s@.take(i + 1)[j] == '-');
                }
            }
            match c {
                '-' => {
                    flag = -1;
                    proof {
                        assert(s@.take(i + 1)[i as int] == '-');
                        assert(s@.take(i + 1).contains('-'));
                    }
                },
                '.' => {
                },
                _ => {
                    let d = (c as u32) - 0x30;
                    res = res * 10 + (d as i32);
                },
            }
            i = i + 1;
        }
        proof {
            assert(s@.take(len as int) =~= s@);
        }
        if flag >= 0 {
            res
        } else {
            -res
        }
    }

    /// Builds a record from a station id and the three textual temperatures.
    pub fn new(id: u32, average: &str, max: &str, min: &str) -> (r: Self)
        requires
            forall|i: int| 0 <= i < average@.len() ==> is_temp_char(#[trigger] average@[i]),
            average@.len() <= 9,
            forall|i: int| 0 <= i < max@.len() ==> is_temp_char(#[trigger] max@[i]),
            max@.len() <= 9,
            forall|i: int| 0 <= i < min@.len() ==> is_temp_char(#[trigger] min@[i]),
            min@.len() <= 9,
        ensures
            r.id == id,
            r.average as int == spec_parse_temp(average@),
            r.max as int == spec_parse_temp(max@),
            r.min as int == spec_parse_temp(min@),
    {
        ObservationPointData {
            id,
            average: Self::parse_temp(average),
            max: Self::parse_temp(max),
            min: Self::parse_temp(min),
        }
    }
}

proof fn lemma_pow10_le(a: nat, b: nat)
    requires
        a <= b,
    ensures
        pow10(a) <= pow10(b),
    decreases b,
{
    if a < b {
        lemma_pow10_le(a, (b - 1) as nat);
        lemma_temp_pow10_pos((b - 1) as nat);
    }
}

proof fn lemma_temp_pow10_pos(n: nat)
    ensures
        pow10(n) >= 1,
    decreases n,
{
    if n > 0 {
        lemma_temp_pow10_pos((n - 1) as nat);
    }
}

/// The packed 32-bit temperature word of a record: quantized max, min and
/// average in three 10-bit fields, from the most significant end.
pub open spec fn spec_temperature_word(r: ObservationPointData) -> int {
    spec_quantize(r.max as int) * 0x100000 + spec_quantize(r.min as int) * 0x400 + spec_quantize(
        r.average as int,
    )
}

/// The six wire bytes of one record.
pub open spec fn spec_compress_record(r: ObservationPointData) -> Seq<u8> {
    let off = r.id - STATION_ID_BASE;
    let w = spec_temperature_word(r);
    seq![
        (off / 256) as u8,
        (off % 256) as u8,
        (w / 0x1000000) as u8,
        (w / 0x10000 % 256) as u8,
        (w / 256 % 256) as u8,
        (w % 256) as u8,
    ]
}

/// The record a six-byte wire group denotes.
pub open spec fn spec_decompress_record(b: Seq<u8>) -> ObservationPointData {
    let w = b[2] * 0x1000000 + b[3] * 0x10000 + b[4] * 256 + b[5];
    ObservationPointData {
        id: (STATION_ID_BASE + b[0] * 256 + b[1]) as u32,
        average: spec_dequantize(w % 1024) as i32,
        max: spec_dequantize(w / 0x100000 % 1024) as i32,
        min: spec_dequantize(w / 0x400 % 1024) as i32,
    }
}

impl ObservationPointData {
    /// Encodes this record into its six wire bytes.
    pub fn compress(&self) -> (r: [u8; 6])
        requires
            STATION_ID_BASE <= self.id <= STATION_ID_MAX,
        ensures
            r@ == spec_compress_record(*self),
    {
        let off: u32 = self.id - STATION_ID_BASE;
        let qmax = quantize(self.max);
        let qmin = quantize(self.min);
        let qave = quantize(self.average);
        let w: u32 = qmax * 0x100000 + qmin * 0x400 + qave;
        let r: [u8; 6] = [
            (off / 256) as u8,
            (off % 256) as u8,
            (w / 0x1000000) as u8,
            (w / 0x10000 % 256) as u8,
            (w / 256 % 256) as u8,
            (w % 256) as u8,
        ];
        proof {
            assert(r@ =~= spec_compress_record(*self));
        }
        r
    }

    /// Decodes a six-byte wire group into a record.
    pub fn decompress(data: &[u8]) -> (r: Self)
        requires
            data@.len() == 6,
        ensures
            r == spec_decompress_record(data@),
            STATION_ID_BASE <= r.id <= STATION_ID_MAX,
            -512 <= r.average <= 511,
            -512 <= r.max <= 511,
            -512 <= r.min <= 511,
    {
        let id: u32 = STATION_ID_BASE + (data[0] as u32) * 256 + (data[1] as u32);
        let w: u32 = (data[2] as u32) * 0x1000000 + (data[3] as u32) * 0x10000 + (data[4] as u32)
            * 256 + (data[5] as u32);
        let average = dequantize(w % 1024);
        let max = dequantize(w / 0x100000 % 1024);
        let min = dequantize(w / 0x400 % 1024);
        ObservationPointData { id, average, max, min }
    }
}

/// A record round-trips through the wire bytes whenever its id is
/// representable and its temperatures lie in the quantizable range.
pub proof fn lemma_record_round_trip(r: ObservationPointData)
    requires
        STATION_ID_BASE <= r.id <= STATION_ID_MAX,
        -512 <= r.average <= 511,
        -512 <= r.max <= 511,
        -512 <= r.min <= 511,
    ensures
        spec_decompress_record(spec_compress_record(r)) == r,
{
    let off = r.id - STATION_ID_BASE;
    let w = spec_temperature_word(r);
    let qmax = spec_quantize(r.max as int);
    let qmin = spec_quantize(r.min as int);
    let qave = spec_quantize(r.average as int);
    let b = spec_compress_record(r);
    lemma_quantize_bounds(r.max as int);
    lemma_quantize_bounds(r.min as int);
    lemma_quantize_bounds(r.average as int);
    // the station id reassembles from its two bytes
    lemma_fundamental_div_mod_converse(off, 256, off / 256, off % 256);
    // the three fields come back out of the packed word
    lemma_fundamental_div_mod_converse(w, 0x100000, qmax, qmin * 0x400 + qave);
    lemma_fundamental_div_mod_converse((qmin * 0x400 + qave), 0x400, qmin, qave);
    assert(w / 0x100000 == qmax && w % 0x100000 == qmin * 0x400 + qave);
    lemma_small_mod(qmax as nat, 1024);
    assert(w / 0x100000 % 1024 == qmax);
    lemma_div_mod_exchange(w, 0x400, 1024);
    assert(w % ((0x400int) * 1024) == qmin * 0x400 + qave);
    assert(w / 0x400 % 1024 == qmin);
    vstd::arithmetic::div_mod::lemma_mod_mod(w, 0x400, 0x400);
    assert(w % 1024 == qave);
    // the four bytes reassemble into the word
    lemma_div_mod_exchange(w, 0x10000, 256);
    lemma_div_mod_exchange(w, 256, 256);
    vstd::arithmetic::div_mod::lemma_mod_mod(w, 0x10000, 0x100);
    vstd::arithmetic::div_mod::lemma_mod_mod(w, 256, 256);
    assert(w < 0x40000000);
    lemma_small_mod((w / 0x1000000) as nat, 256);
    let wb = (w / 0x1000000) * 0x1000000 + (w / 0x10000 % 256) * 0x10000 + (w / 256 % 256) * 256
        + w % 256;
    assert(wb == w) by {
        vstd::arithmetic::div_mod::lemma_fundamental_div_mod(w, 0x1000000);
        assert(w % 0x1000000 == 0x10000 * (w / 0x10000 % 256) + w % 0x10000) by {
            vstd::arithmetic::div_mod::lemma_mod_breakdown(w, 0x10000, 256);
        };
        assert(w % 0x10000 == 256 * (w / 256 % 256) + w % 256) by {
            vstd::arithmetic::div_mod::lemma_mod_breakdown(w, 256, 256);
        };
    };
    // the dequantized fields give back the record's temperatures
    lemma_quantize_round_trip(r.max as int);
    lemma_quantize_round_trip(r.min as int);
    lemma_quantize_round_trip(r.average as int);
    assert(spec_decompress_record(b) == r);
}

/// The quantized field is a 10-bit value.
pub proof fn lemma_quantize_bounds(v: int)
    ensures
        0 <= spec_quantize(v) < 1024,
{
    vstd::arithmetic::div_mod::lemma_mod_bound(v + 512, 1024);
}

/// The wire bytes of a whole record sequence: six bytes per record, in order.
pub open spec fn spec_records_bytes(recs: Seq<ObservationPointData>) -> Seq<u8>
    decreases recs.len(),
{
    if recs.len() == 0 {
        Seq::empty()
    } else {
        spec_records_bytes(recs.drop_last()) + spec_compress_record(recs.last())
    }
}

/// The wire bytes of a whole batch: record count, big-endian day offset,
/// then the records.
pub open spec fn spec_compress_data(days: u16, recs: Seq<ObservationPointData>) -> Seq<u8> {
    seq![recs.len() as u8, (days / 256) as u8, (days % 256) as u8] + spec_records_bytes(recs)
}

proof fn lemma_records_bytes_len(recs: Seq<ObservationPointData>)
    ensures
        spec_records_bytes(recs).len() == 6 * recs.len(),
    decreases recs.len(),
{
    if recs.len() > 0 {
        lemma_records_bytes_len(recs.drop_last());
    }
}

proof fn lemma_records_bytes_index(recs: Seq<ObservationPointData>, i: int)
    requires
        0 <= i < recs.len(),
    ensures
        spec_records_bytes(recs).subrange(6 * i, 6 * i + 6) == spec_compress_record(recs[i]),
    decreases recs.len(),
{
    lemma_records_bytes_len(recs);
    lemma_records_bytes_len(recs.drop_last());
    if i == recs.len() - 1 {
        assert(spec_records_bytes(recs).subrange(6 * i, 6 * i + 6) =~= spec_compress_record(
            recs.last(),
        ));
    } else {
        lemma_records_bytes_index(recs.drop_last(), i);
        assert(spec_records_bytes(recs).subrange(6 * i, 6 * i + 6) =~= spec_records_bytes(
            recs.drop_last(),
        ).subrange(6 * i, 6 * i + 6));
    }
}

/// Encodes a batch: one byte of record count, two bytes of day offset from
/// the epoch, then six bytes per record. Fails exactly when the batch holds
/// more than 255 records or a station id the wire format cannot carry.
pub fn compress_data(days: u16, data: &Vec<ObservationPointData>) -> (r: Result<
    Vec<u8>,
    EncodeError,
>)
    ensures
        (match r {
            Ok(bytes) => {
                &&& data@.len() <= 255
                &&& (forall|i: int|
                    0 <= i < data@.len() ==> STATION_ID_BASE <= (#[trigger] data@[i]).id
                        <= STATION_ID_MAX)
                &&& bytes@ == spec_compress_data(days, data@)
            },
            Err(EncodeError::TooManyRecords) => data@.len() > 255,
            Err(EncodeError::StationIdOutOfRange) => {
                &&& data@.len() <= 255
                &&& (exists|i: int|
                    0 <= i < data@.len() && !(STATION_ID_BASE <= (#[trigger] data@[i]).id
                        <= STATION_ID_MAX))
            },
        }),
{
    if data.len() > 255 {
        return Err(EncodeError::TooManyRecords);
    }
    let mut i: usize = 0;
    while i < data.len()
        invariant
            i <= data@.len(),
            data@.len() <= 255,
            forall|k: int|
                0 <= k < i ==> STATION_ID_BASE <= (#[trigger] data@[k]).id <= STATION_ID_MAX,
        decreases data@.len() - i,
    {
        let id = data[i].id;
        if id < STATION_ID_BASE || id > STATION_ID_MAX {
            proof {
                assert(exists|k: int|
                    0 <= k < data@.len() && !(STATION_ID_BASE <= (#[trigger] data@[k]).id
                        <= STATION_ID_MAX)) by {
                    assert(!(STATION_ID_BASE <= (data@[i as int]).id <= STATION_ID_MAX));
                }
            }
            return Err(EncodeError::StationIdOutOfRange);
        }
        i = i + 1;
    }
    let mut bytes: Vec<u8> = Vec::new();
    bytes.push(data.len() as u8);
    bytes.push((days / 256) as u8);
    bytes.push((days % 256) as u8);
    let mut i: usize = 0;
    while i < data.len()
        invariant
            i <= data@.len(),
            data@.len() <= 255,
            forall|k: int|
                0 <= k < data@.len() ==> STATION_ID_BASE <= (#[trigger] data@[k]).id
                    <= STATION_ID_MAX,
            bytes@ == seq![
                data@.len() as u8,
                (days / 256) as u8,
                (days % 256) as u8,
            ] + spec_records_bytes(data@.take(i as int)),
        decreases data@.len() - i,
    {
        let rb = data[i].compress();
        bytes.push(rb[0]);
        bytes.push(rb[1]);
        bytes.push(rb[2]);
        bytes.push(rb[3]);
        bytes.push(rb[4]);
        bytes.push(rb[5]);
        proof {
            assert(data@.take(i + 1).drop_last() =~= data@.take(i as int));
            assert(data@.take(i + 1).last() == data@[i as int]);
            assert(bytes@ =~= seq![
                data@.len() as u8,
                (days / 256) as u8,
                (days % 256) as u8,
            ] + spec_records_bytes(data@.take(i + 1)));
        }
        i = i + 1;
    }
    proof {
        assert(data@.take(data@.len() as int) =~= data@);
    }
    Ok(bytes)
}

/// Decodes a batch laid out as `compress_data` writes it. Extra bytes after
/// the announced records are ignored, as a framing layer reads exact frames.
/// Fails exactly when fewer bytes are given than the header and the announced
/// record count need.
pub fn decompress_data(data: &[u8]) -> (r: Result<(u16, Vec<ObservationPointData>), DecodeError>)
    ensures
        (match r {
            Ok(parts) => {
                &&& data@.len() >= 3
                &&& data@.len() >= 3 + 6 * (data@[0] as int)
                &&& parts.0 as int == data@[1] * 256 + data@[2]
                &&& parts.1@.len() == data@[0]
                &&& (forall|i: int|
                    0 <= i < parts.1@.len() ==> #[trigger] parts.1@[i] == spec_decompress_record(
                        data@.subrange(3 + 6 * i, 9 + 6 * i),
                    ))
            },
            Err(DecodeError::Truncated) => data@.len() < 3 || data@.len() < 3 + 6 * (
            data@[0] as int),
        }),
{
    if data.len() < 3 {
        return Err(DecodeError::Truncated);
    }
    let n = *vstd::slice::slice_index_get(data, 0) as usize;
    if (data.len() - 3) / 6 < n {
        return Err(DecodeError::Truncated);
    }
    let days: u16 = (*vstd::slice::slice_index_get(data, 1) as u16) * 256 + (
    *vstd::slice::slice_index_get(data, 2) as u16);
    let mut recs: Vec<ObservationPointData> = Vec::new();
    let mut i: usize = 0;
    while i < n
        invariant
            i <= n,
            n <= 255,
            data@.len() >= 3 + 6 * n,
            recs@.len() == i,
            forall|k: int|
                0 <= k < i ==> #[trigger] recs@[k] == spec_decompress_record(
                    data@.subrange(3 + 6 * k, 9 + 6 * k),
                ),
        decreases n - i,
    {
        let group = vstd::slice::slice_subrange(data, 3 + 6 * i, 9 + 6 * i);
        let rec = ObservationPointData::decompress(group);
        recs.push(rec);
        i = i + 1;
    }
    Ok((days, recs))
}

/// The byte string holds a complete frame: a header and as many record
/// groups as the header announces.
pub open spec fn spec_frame_complete(b: Seq<u8>) -> bool {
    b.len() >= 3 && b.len() >= 3 + 6 * (b[0] as int)
}

/// The day offset a frame's header carries.
pub open spec fn spec_decoded_days(b: Seq<u8>) -> int {
    b[1] * 256 + b[2]
}

/// The records a frame carries.
pub open spec fn spec_decoded_records(b: Seq<u8>) -> Seq<ObservationPointData> {
    Seq::new(b[0] as nat, |i: int| spec_decompress_record(b.subrange(3 + 6 * i, 9 + 6 * i)))
}

/// A whole batch round-trips through the wire bytes: the encoded form opens
/// back up to the same day offset and the same records, whenever every id is
/// representable and every temperature lies in the quantizable range.
pub proof fn lemma_batch_round_trip(days: u16, recs: Seq<ObservationPointData>)
    requires
        recs.len() <= 255,
        forall|i: int|
            0 <= i < recs.len() ==> STATION_ID_BASE <= (#[trigger] recs[i]).id <= STATION_ID_MAX,
        forall|i: int|
            0 <= i < recs.len() ==> -512 <= (#[trigger] recs[i]).average <= 511 && -512
                <= recs[i].max <= 511 && -512 <= recs[i].min <= 511,
    ensures
        spec_compress_data(days, recs).len() == 3 + 6 * recs.len(),
        spec_compress_data(days, recs)[0] == recs.len() as u8,
        spec_compress_data(days, recs)[1] * 256 + spec_compress_data(days, recs)[2] == days,
        forall|i: int|
            0 <= i < recs.len() ==> spec_decompress_record(
                #[trigger] spec_compress_data(days, recs).subrange(3 + 6 * i, 9 + 6 * i),
            ) == recs[i],
{
    let b = spec_compress_data(days, recs);
    lemma_records_bytes_len(recs);
    lemma_fundamental_div_mod_converse(days as int, 256, days as int / 256, days as int % 256);
    assert forall|i: int| 0 <= i < recs.len() implies spec_decompress_record(
        #[trigger] b.subrange(3 + 6 * i, 9 + 6 * i),
    ) == recs[i] by {
        lemma_records_bytes_index(recs, i);
        assert(b.subrange(3 + 6 * i, 9 + 6 * i) =~= spec_records_bytes(recs).subrange(
            6 * i,
            6 * i + 6,
        ));
        lemma_record_round_trip(recs[i]);
    }
}

/// `x / a % b == x % (a * b) / a`: dividing then reducing is reducing by the
/// product then dividing.
proof fn lemma_div_mod_exchange(x: int, a: int, b: int)
    requires
        x >= 0,
        a >= 1,
        b >= 1,
    ensures
        x / a % b == x % (a * b) / a,
{
    vstd::arithmetic::div_mod::lemma_mod_breakdown(x, a, b);
    assert(a * (x / a % b) == (x / a % b) * a) by (nonlinear_arith);
    vstd::arithmetic::div_mod::lemma_mod_bound(x, a);
    lemma_fundamental_div_mod_converse(x % (a * b), a, x / a % b, x % a);
}

} // verus!
