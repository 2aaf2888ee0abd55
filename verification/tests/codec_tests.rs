use weatherflow::codec::{
    compress_data, decompress_data, dequantize, quantize, DecodeError, EncodeError,
    ObservationPointData,
};

#[test]
fn quantize_round_trips_on_the_representable_range() {
    for v in [-512, -511, -1, 0, 1, 150, 511] {
        let q = quantize(v);
        assert!(q < 1024);
        assert_eq!(dequantize(q), v);
    }
}

#[test]
fn quantize_wraps_deterministically_outside_the_range() {
    // the masking formula: (v + 512) & 0x3FF
    for v in [512, 600, 1024, -513, -1000, 100000, i32::MAX, i32::MIN] {
        let expected = ((v as i64 + 512) & 0x3FF) as u32;
        assert_eq!(quantize(v), expected);
        assert_eq!(quantize(v), quantize(v));
    }
    // one wrap example spelled out: 51.3 C reads back as -51.1 C
    assert_eq!(dequantize(quantize(513)), -511);
}

#[test]
fn record_round_trips_through_six_bytes() {
    let rec = ObservationPointData { id: 40123, average: -35, max: 12, min: -102 };
    let bytes = rec.compress();
    let back = ObservationPointData::decompress(&bytes);
    assert_eq!(back, rec);
}

#[test]
fn batch_round_trips_through_the_wire() {
    let recs = vec![
        ObservationPointData { id: 40001, average: 150, max: 200, min: 100 },
        ObservationPointData { id: 105535, average: -512, max: 511, min: 0 },
        ObservationPointData { id: 47662, average: 0, max: 1, min: -1 },
    ];
    let bytes = compress_data(12345, &recs).unwrap();
    assert_eq!(bytes.len(), 3 + 6 * recs.len());
    let (days, back) = decompress_data(&bytes).unwrap();
    assert_eq!(days, 12345);
    assert_eq!(back, recs);
}

#[test]
fn empty_batch_round_trips() {
    let bytes = compress_data(7, &vec![]).unwrap();
    assert_eq!(bytes, vec![0u8, 0, 7]);
    let (days, back) = decompress_data(&bytes).unwrap();
    assert_eq!(days, 7);
    assert!(back.is_empty());
}

#[test]
fn known_batch_encodes_to_exact_bytes() {
    // day 0, one record: id 40001, avg 15.0 C, max 20.0 C, min 10.0 C
    let rec = ObservationPointData { id: 40001, average: 150, max: 200, min: 100 };
    let bytes = compress_data(0, &vec![rec]).unwrap();
    // packed word: (200+512)<<20 | (100+512)<<10 | (150+512)
    let word: u32 = (712 << 20) | (612 << 10) | 662;
    assert_eq!(word, 0x2C899296);
    assert_eq!(bytes, vec![0x01, 0x00, 0x00, 0x00, 0x01, 0x2C, 0x89, 0x92, 0x96]);
    let (days, back) = decompress_data(&bytes).unwrap();
    assert_eq!(days, 0);
    assert_eq!(back, vec![rec]);
}

#[test]
fn station_id_bias_is_40000() {
    // id 50001 encodes as 10001 = 0x2711 on the wire
    let rec = ObservationPointData { id: 50001, average: 150, max: 200, min: 100 };
    let bytes = rec.compress();
    assert_eq!(&bytes[0..2], &[0x27, 0x11]);
}

#[test]
fn oversized_batch_is_rejected() {
    let recs = vec![ObservationPointData { id: 40001, average: 0, max: 0, min: 0 }; 256];
    assert_eq!(compress_data(0, &recs), Err(EncodeError::TooManyRecords));
}

#[test]
fn out_of_range_station_id_is_rejected() {
    for id in [0u32, 39999, 105536, u32::MAX] {
        let recs = vec![ObservationPointData { id, average: 0, max: 0, min: 0 }];
        assert_eq!(compress_data(0, &recs), Err(EncodeError::StationIdOutOfRange));
    }
}

#[test]
fn truncated_frames_are_rejected() {
    assert_eq!(decompress_data(&[]), Err(DecodeError::Truncated));
    assert_eq!(decompress_data(&[2, 0]), Err(DecodeError::Truncated));
    // header announces one record but its bytes are missing
    assert_eq!(decompress_data(&[1, 0, 0, 1, 2]), Err(DecodeError::Truncated));
}

#[test]
fn trailing_bytes_are_ignored() {
    let bytes = vec![0u8, 0, 9, 77, 88];
    let (days, back) = decompress_data(&bytes).unwrap();
    assert_eq!(days, 9);
    assert!(back.is_empty());
}

#[test]
fn parse_temp_reads_decimal_strings() {
    assert_eq!(ObservationPointData::parse_temp("12.3"), 123);
    assert_eq!(ObservationPointData::parse_temp("-3.5"), -35);
    assert_eq!(ObservationPointData::parse_temp("0"), 0);
    assert_eq!(ObservationPointData::parse_temp("-0.0"), 0);
    assert_eq!(ObservationPointData::parse_temp("25"), 25);
}

#[test]
fn new_parses_all_three_fields() {
    let rec = ObservationPointData::new(40500, "15.0", "20.5", "-1.2");
    assert_eq!(rec.id, 40500);
    assert_eq!(rec.average, 150);
    assert_eq!(rec.max, 205);
    assert_eq!(rec.min, -12);
    assert_eq!(rec.point_id(), 40500);
}
