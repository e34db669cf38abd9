use pinax::codec::{
    i64_to_bytes, read_bytes, read_i64, read_u16, read_u32, read_u64, read_u8, read_vec,
    write_bytes, write_u16, write_u32, write_u64, write_u8,
};
use pinax::lexis::{DateTimeValue, RealValue, Value};
use pinax::page::{compute_checksum, stamp_checksum, verify_checksum};
use pinax::row::{decode_value, encode_value, TAG_TEXT};
use pinax::{FatalError, PageSize, PermanentError, PinaxError, Row};

// ---- the codec ----

#[test]
fn u16_round_trips() {
    let mut buf = vec![0u8; 8];
    write_u16(&mut buf, 2, 0xABCD).expect("in bounds");
    assert_eq!(read_u16(&buf, 2).expect("in bounds"), 0xABCD);
}

#[test]
fn u32_round_trips() {
    let mut buf = vec![0u8; 8];
    write_u32(&mut buf, 0, 0xDEAD_BEEF).expect("in bounds");
    assert_eq!(read_u32(&buf, 0).expect("in bounds"), 0xDEAD_BEEF);
}

#[test]
fn u64_round_trips() {
    let mut buf = vec![0u8; 8];
    write_u64(&mut buf, 0, 0x0123_4567_89AB_CDEF).expect("in bounds");
    assert_eq!(read_u64(&buf, 0).expect("in bounds"), 0x0123_4567_89AB_CDEF);
}

#[test]
fn i64_round_trips_negative() {
    let mut buf = Vec::new();
    buf.extend_from_slice(&(-42i64).to_be_bytes());
    assert_eq!(read_i64(&buf, 0).expect("in bounds"), -42);
}

#[test]
fn read_out_of_bounds_errors() {
    let buf = vec![0u8; 4];
    let err = read_u64(&buf, 0).expect_err("8 bytes at offset 0 exceeds a 4-byte buffer");
    assert!(matches!(
        err,
        PinaxError::Fatal {
            source: FatalError::BufferBounds { .. }
        }
    ));
}

#[test]
fn write_out_of_bounds_errors() {
    let mut buf = vec![0u8; 4];
    let err = write_u32(&mut buf, 2, 1).expect_err("4 bytes at offset 2 exceeds 4-byte buffer");
    assert!(matches!(
        err,
        PinaxError::Fatal {
            source: FatalError::BufferBounds { .. }
        }
    ));
}

#[test]
fn u8_round_trips() {
    let mut buf = vec![0u8; 2];
    write_u8(&mut buf, 1, 7).expect("in bounds");
    assert_eq!(read_u8(&buf, 1).expect("in bounds"), 7);
}

#[test]
fn integers_are_big_endian() {
    let mut buf = vec![0u8; 8];
    write_u32(&mut buf, 2, 0x0102_0304).expect("in bounds");
    assert_eq!(buf, vec![0, 0, 1, 2, 3, 4, 0, 0]);
    assert_eq!(i64_to_bytes(-2), [255, 255, 255, 255, 255, 255, 255, 254]);
    assert_eq!(i64_to_bytes(i64::MIN), [0x80, 0, 0, 0, 0, 0, 0, 0]);
    assert_eq!(read_i64(&[0x80, 0, 0, 0, 0, 0, 0, 0], 0), Ok(i64::MIN));
}

#[test]
fn bounds_errors_say_where() {
    let mut buf = vec![9u8; 4];
    assert_eq!(
        read_vec(&buf, 3, 2),
        Err(PinaxError::Fatal {
            source: FatalError::BufferBounds {
                at: 3,
                len: 2,
                buf_len: 4
            }
        })
    );
    assert_eq!(
        write_bytes(&mut buf, usize::MAX, &[1, 2]),
        Err(PinaxError::Fatal {
            source: FatalError::BufferBounds {
                at: usize::MAX,
                len: 2,
                buf_len: 4
            }
        })
    );
    assert_eq!(buf, vec![9u8; 4]);
    assert_eq!(read_bytes::<2>(&[1, 2, 3], 1), Ok([2, 3]));
    assert_eq!(read_vec(&[1, 2, 3], 3, 0), Ok(vec![]));
}

// ---- pages ----

#[test]
fn page_size_accepts_all_locked_values() {
    for value in [4096, 8192, 16384, 32768, 65536] {
        assert_eq!(PageSize::try_from(value).expect("valid").bytes(), value);
    }
}

#[test]
fn page_size_rejects_non_power_of_two() {
    let err = PageSize::try_from(5000).expect_err("not a valid page size");
    assert!(matches!(
        err,
        PinaxError::Permanent {
            source: PermanentError::InvalidPageSize { .. }
        }
    ));
}

#[test]
fn page_size_rejects_below_minimum() {
    assert!(PageSize::try_from(512).is_err());
}

#[test]
fn page_size_rejects_above_maximum() {
    assert!(PageSize::try_from(131_072).is_err());
}

#[test]
fn default_is_4096() {
    assert_eq!(PageSize::default().bytes(), 4096);
}

#[test]
fn max_local_matches_decision_2_formula() {
    let page_size = PageSize::default();
    assert_eq!(page_size.usable_space(), 4096 - 8);
    assert_eq!(page_size.max_local(), 4096 - 8 - 35);
}

#[test]
fn checksum_round_trips() {
    let mut buf = vec![0xAB_u8; 4096];
    stamp_checksum(&mut buf).expect("buffer at least CHECKSUM_LEN long");
    assert!(verify_checksum(&buf).is_ok());
}

#[test]
fn checksum_detects_flipped_byte() {
    let mut buf = vec![0xAB_u8; 4096];
    stamp_checksum(&mut buf).expect("buffer at least CHECKSUM_LEN long");
    if let Some(byte) = buf.get_mut(10) {
        *byte ^= 0xFF;
    }
    assert!(verify_checksum(&buf).is_err());
}

#[test]
fn checksum_is_the_xxh3_hash_of_the_body() {
    // The hash of no bytes at all.
    assert_eq!(compute_checksum(&[7u8; 8]), 0x2D06_8005_38D3_94C2);
    let mut buf = vec![3u8; 100];
    let expected = xxhash_rust::xxh3::xxh3_64(&[3u8; 92]);
    assert_eq!(compute_checksum(&buf), expected);
    assert_eq!(
        verify_checksum(&buf),
        Err((0x0303_0303_0303_0303, expected))
    );
    stamp_checksum(&mut buf).expect("long enough");
    assert_eq!(buf[..92], [3u8; 92]);
    assert_eq!(buf[92..], expected.to_be_bytes());
}

#[test]
fn stamping_a_short_buffer_fails() {
    let mut buf = vec![0u8; 7];
    assert!(matches!(
        stamp_checksum(&mut buf),
        Err(PinaxError::Fatal {
            source: FatalError::BufferBounds { .. }
        })
    ));
}

#[test]
fn invalid_page_size_names_what_was_asked() {
    assert_eq!(
        PageSize::try_from(5000).map(|p| p.bytes()),
        Err(PinaxError::Permanent {
            source: PermanentError::InvalidPageSize { requested: 5000 }
        })
    );
    assert_eq!(PageSize::try_from(65536).map(|p| p.max_local()), Ok(65493));
}

// ---- rows ----

#[test]
fn round_trips_every_type() {
    let row = Row::new(vec![
        Value::Null,
        Value::Integer(-7),
        Value::Real(RealValue::try_from(3.5_f64.to_bits()).expect("finite")),
        Value::Text("hello".to_owned()),
        Value::Blob(vec![1, 2, 3]),
        Value::Boolean(true),
        Value::Datetime(DateTimeValue::from(42)),
    ]);
    let encoded = row.encode(1).expect("encodes");
    let decoded = Row::decode(&encoded).expect("decodes");
    assert_eq!(row, decoded);
}

#[test]
fn round_trips_empty_row() {
    let row = Row::new(vec![]);
    let encoded = row.encode(1).expect("encodes");
    let decoded = Row::decode(&encoded).expect("decodes");
    assert_eq!(row, decoded);
}

#[test]
fn round_trips_empty_text_and_blob() {
    let row = Row::new(vec![Value::Text(String::new()), Value::Blob(vec![])]);
    let encoded = row.encode(1).expect("encodes");
    let decoded = Row::decode(&encoded).expect("decodes");
    assert_eq!(row, decoded);
}

#[test]
fn round_trips_large_text() {
    let text = "x".repeat(10_000);
    let row = Row::new(vec![Value::Text(text.clone())]);
    let encoded = row.encode(1).expect("encodes");
    let decoded = Row::decode(&encoded).expect("decodes");
    assert_eq!(decoded.values(), &[Value::Text(text)]);
}

#[test]
fn decode_rejects_unrecognized_tag() {
    let buf = [0u8, 0, 0, 1, 0xFF];
    let err = Row::decode(&buf).expect_err("tag 0xFF is not a known type");
    assert!(matches!(
        err,
        PinaxError::Fatal {
            source: FatalError::InvalidRowEncoding { .. }
        }
    ));
}

#[test]
fn decode_rejects_invalid_utf8() {
    let mut buf = vec![0, 0, 0, 1, TAG_TEXT];
    buf.extend_from_slice(&2u32.to_be_bytes());
    buf.extend_from_slice(&[0xFF, 0xFE]);
    let err = Row::decode(&buf).expect_err("0xFF 0xFE is not valid UTF-8");
    assert!(matches!(
        err,
        PinaxError::Fatal {
            source: FatalError::InvalidRowEncoding { .. }
        }
    ));
}

#[test]
fn values_accessor_matches_constructor() {
    let row = Row::new(vec![Value::Integer(1)]);
    assert_eq!(row.values(), &[Value::Integer(1)]);
}

#[test]
fn encoded_row_has_these_bytes() {
    let row = Row::new(vec![
        Value::Null,
        Value::Integer(1),
        Value::Text("é".to_owned()),
        Value::Boolean(true),
    ]);
    assert_eq!(
        row.encode(1).expect("encodes"),
        vec![
            0, 0, 0, 4, // four values
            0, // NULL
            1, 0, 0, 0, 0, 0, 0, 0, 1, // an integer
            3, 0, 0, 0, 2, 0xC3, 0xA9, // a text
            5, 1, // a truth value
        ]
    );
}

#[test]
fn decoded_text_is_read_as_utf8() {
    let buf = vec![0, 0, 0, 1, TAG_TEXT, 0, 0, 0, 3, 0xE2, 0x82, 0xAC];
    assert_eq!(
        Row::decode(&buf).expect("decodes").values(),
        &[Value::Text("€".to_owned())]
    );
}

#[test]
fn decode_rejects_what_is_cut_off_or_nan() {
    let row = Row::new(vec![Value::Integer(1), Value::Text("abc".to_owned())]);
    let encoded = row.encode(1).expect("encodes");
    for len in 0..encoded.len() {
        assert!(matches!(
            Row::decode(&encoded[..len]),
            Err(PinaxError::Fatal {
                source: FatalError::InvalidRowEncoding {
                    reason: "row payload ended too early"
                }
            })
        ));
    }
    let mut nan = vec![0, 0, 0, 1, 2];
    nan.extend_from_slice(&f64::NAN.to_bits().to_be_bytes());
    assert!(matches!(
        Row::decode(&nan),
        Err(PinaxError::Fatal {
            source: FatalError::InvalidRowEncoding { .. }
        })
    ));
}

#[test]
fn cloned_row_has_the_same_values() {
    let row = Row::new(vec![Value::Integer(1), Value::Text(String::from("a")), Value::Null]);
    assert_eq!(row.clone(), row);
    assert_ne!(row.clone(), Row::new(vec![]));
}

#[test]
fn announced_value_that_is_missing_is_an_invalid_encoding() {
    assert!(matches!(
        Row::decode(&[0, 0, 0, 1]),
        Err(PinaxError::Fatal {
            source: FatalError::InvalidRowEncoding { .. }
        })
    ));
}

#[test]
fn value_is_decoded_whatever_surrounds_it() {
    let value = Value::Text("héllo".to_owned());
    let mut buf = vec![9, 9, 9];
    encode_value(&mut buf, &value, 1).expect("encodes");
    let end = buf.len();
    buf.extend_from_slice(&[1, 2, 3, 4]);
    assert_eq!(decode_value(&buf, 3).expect("decodes"), (value, end));
    assert_eq!(end, 3 + 1 + 4 + 6);
}
