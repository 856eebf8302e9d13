use packstream::v1::wire::{
    i64_from_unsigned, i64_to_unsigned, u16_to_be_bytes, u32_to_be_bytes, u64_from_be_bytes,
    u64_to_be_bytes,
};
use packstream::{
    Dehydrate, Hydrate, Limit, PackError, PackStreamDecoder, PackStreamEncoder, UnpackError, Value,
};

#[test]
fn numbers_are_big_endian() {
    assert_eq!(u16_to_be_bytes(0x0102), [0x01, 0x02]);
    assert_eq!(u16_to_be_bytes(0xFFFE), [0xFF, 0xFE]);
    assert_eq!(u32_to_be_bytes(0x01020304), [0x01, 0x02, 0x03, 0x04]);
    assert_eq!(u32_to_be_bytes(u32::MAX), [0xFF; 4]);
    assert_eq!(
        u64_to_be_bytes(0x0102030405060708),
        [0x01, 0x02, 0x03, 0x04, 0x05, 0x06, 0x07, 0x08]
    );
    assert_eq!(u64_from_be_bytes(&[]), 0);
    assert_eq!(u64_from_be_bytes(&[0x12]), 0x12);
    assert_eq!(u64_from_be_bytes(&[0x01, 0x02]), 0x0102);
    assert_eq!(u64_from_be_bytes(&[0x01, 0x02, 0x03, 0x04]), 0x01020304);
    assert_eq!(u64_from_be_bytes(&[0xFF; 8]), u64::MAX);
    for x in [0u64, 1, 255, 256, 0xDEADBEEF, u64::MAX] {
        assert_eq!(u64_from_be_bytes(&u64_to_be_bytes(x)), x);
        assert_eq!(u64_to_be_bytes(x), x.to_be_bytes());
    }
}

#[test]
fn signed_numbers_are_in_twos_complement() {
    assert_eq!(i64_to_unsigned(-1, 1), 0xFF);
    assert_eq!(i64_to_unsigned(-128, 1), 0x80);
    assert_eq!(i64_to_unsigned(127, 1), 0x7F);
    assert_eq!(i64_to_unsigned(-1, 2), 0xFFFF);
    assert_eq!(i64_to_unsigned(-32768, 2), 0x8000);
    assert_eq!(i64_to_unsigned(-1, 4), 0xFFFF_FFFF);
    assert_eq!(i64_to_unsigned(-1, 8), u64::MAX);
    assert_eq!(i64_to_unsigned(i64::MIN, 8), 1 << 63);
    assert_eq!(i64_to_unsigned(i64::MAX, 8), (1 << 63) - 1);
    assert_eq!(i64_from_unsigned(0xFF, 1), -1);
    assert_eq!(i64_from_unsigned(0x80, 1), -128);
    assert_eq!(i64_from_unsigned(0x7F, 1), 127);
    assert_eq!(i64_from_unsigned(0xFFFF, 2), -1);
    assert_eq!(i64_from_unsigned(0x8000, 2), -32768);
    assert_eq!(i64_from_unsigned(0x7FFF, 2), 32767);
    assert_eq!(i64_from_unsigned(0x8000_0000, 4), -2147483648);
    assert_eq!(i64_from_unsigned(u64::MAX, 8), -1);
    assert_eq!(i64_from_unsigned(1 << 63, 8), i64::MIN);
}

fn decoder(bytes: &[u8]) -> PackStreamDecoder<'_, Hydrate> {
    PackStreamDecoder::new(bytes, 0, None)
}

#[test]
fn the_cursor_moves_behind_what_was_read() {
    let bytes = [0x01, 0x02, 0x03, 0x04, 0x05, 0x06, 0x07, 0x08, 0x09];
    let mut d = decoder(&bytes);
    assert_eq!(d.read_byte(), Ok(0x01));
    assert_eq!(d.index, 1);
    assert_eq!(d.read_n_bytes(3), Ok(&bytes[1..4]));
    assert_eq!(d.index, 4);
    assert_eq!(d.read_n_bytes(0), Ok(&bytes[4..4]));
    assert_eq!(d.read_n_bytes(6), Err(UnpackError::Truncated { offset: 4 }));
    assert_eq!(d.index, 4);
    assert_eq!(d.read_u16(), Ok(0x0506));
    assert_eq!(d.read_u8(), Ok(0x07));
    assert_eq!(d.read_u32(), Err(UnpackError::Truncated { offset: 7 }));
    assert_eq!(d.read_n_bytes(usize::MAX), Err(UnpackError::Truncated { offset: 7 }));
    assert_eq!(d.read_byte(), Ok(0x08));
    assert_eq!(d.read_byte(), Ok(0x09));
    assert_eq!(d.read_byte(), Err(UnpackError::Truncated { offset: 9 }));
    assert_eq!(d.index, 9);
}

#[test]
fn typed_reads() {
    assert_eq!(decoder(&[0xFF]).read_i8(), Ok(-1));
    assert_eq!(decoder(&[0xFF, 0xFE]).read_i16(), Ok(-2));
    assert_eq!(decoder(&[0x7F, 0xFF, 0xFF, 0xFF]).read_i32(), Ok(i32::MAX));
    assert_eq!(decoder(&[0x80, 0, 0, 0, 0, 0, 0, 0]).read_i64(), Ok(i64::MIN));
    assert_eq!(decoder(&[0, 0, 1, 0]).read_u32(), Ok(256));
    assert_eq!(
        decoder(&[0x3F, 0xF0, 0, 0, 0, 0, 0, 0]).read_f64().map(f64::from_bits),
        Ok(1.0)
    );
    assert_eq!(decoder(&[0x61, 0x62]).read_string(2), Ok("ab".to_string()));
    assert_eq!(decoder(&[0x61, 0x62]).read_string(0), Ok(String::new()));
    assert_eq!(decoder(&[0xE2, 0x82, 0xAC]).read_string(3), Ok("\u{20AC}".to_string()));
    assert_eq!(decoder(&[0xE2, 0x82]).read_string(2), Err(UnpackError::InvalidUtf8 { offset: 0 }));
    assert_eq!(decoder(&[0x61, 0x62]).read_bytes(2), Ok(vec![0x61, 0x62]));
    assert_eq!(decoder(&[0x61]).read_bytes(2), Err(UnpackError::Truncated { offset: 0 }));
}

#[test]
fn the_length_of_a_key() {
    assert_eq!(decoder(&[0x85]).read_string_length(), Ok(5));
    assert_eq!(decoder(&[0xD0, 0x20]).read_string_length(), Ok(0x20));
    assert_eq!(decoder(&[0xD1, 0x01, 0x00]).read_string_length(), Ok(0x100));
    assert_eq!(decoder(&[0xD2, 0x00, 0x01, 0x00, 0x00]).read_string_length(), Ok(0x10000));
    assert_eq!(
        decoder(&[0xD5, 0x00, 0x01]).read_string_length(),
        Err(UnpackError::InvalidMapKey { marker: 0xD5 })
    );
    assert_eq!(decoder(&[]).read_string_length(), Err(UnpackError::Truncated { offset: 0 }));
    assert_eq!(decoder(&[0xD1, 0x01]).read_string_length(), Err(UnpackError::Truncated { offset: 1 }));
}

#[test]
fn the_decoder_reads_value_after_value() {
    let bytes = [0x01, 0x81, 0x61, 0xC3];
    let mut d = decoder(&bytes);
    assert_eq!(d.read(), Ok(Value::Int(1)));
    assert_eq!(d.read(), Ok(Value::Str("a".to_string())));
    assert_eq!(d.read(), Ok(Value::Bool(true)));
    assert_eq!(d.index, 4);
    assert_eq!(d.read(), Err(UnpackError::Truncated { offset: 4 }));
}

#[test]
fn the_encoder_appends() {
    let mut e = PackStreamEncoder::<Dehydrate>::new(None);
    assert!(e.buffer.is_empty());
    assert_eq!(e.write_int(1), Ok(()));
    assert_eq!(e.write_float(1.0f64.to_bits()), Ok(()));
    assert_eq!(e.write_string("ab"), Ok(()));
    assert_eq!(e.write_bytes(&[9]), Ok(()));
    assert_eq!(e.write_list_header(1), Ok(()));
    assert_eq!(e.write_dict_header(16), Ok(()));
    assert_eq!(e.write_struct_header(0x41, 2), Ok(()));
    assert_eq!(e.write(&Value::Null), Ok(()));
    assert_eq!(
        e.buffer,
        vec![
            0x01, 0xC1, 0x3F, 0xF0, 0, 0, 0, 0, 0, 0, 0x82, 0x61, 0x62, 0xCC, 0x01, 0x09, 0x91,
            0xD8, 0x10, 0xB2, 0x41, 0xC0
        ]
    );
}

#[test]
fn a_failed_write_keeps_what_was_written_before() {
    let mut e = PackStreamEncoder::<Dehydrate>::new(None);
    assert_eq!(e.write(&Value::Int(1)), Ok(()));
    let bad = Value::List(vec![Value::Int(2), Value::Dict(vec![(Value::Int(3), Value::Null)])]);
    assert!(matches!(e.write(&bad), Err(PackError::InvalidMapKey(_))));
    assert_eq!(e.buffer[0], 0x01);
    assert_eq!(
        e.write_struct_header(1, 200),
        Err(PackError::SizeOverflow(Limit::Structure))
    );
}

#[test]
fn a_failed_read_leaves_the_cursor_where_it_was() {
    // an unknown marker, alone and inside a list inside a dictionary
    for bytes in [
        vec![0x01, 0xC4],
        vec![0x01, 0x92, 0x01, 0xC4],
        vec![0x01, 0xA1, 0x81, 0x61, 0x92, 0x01, 0xC4],
        // truncated values, a bad key, invalid text, a structure cut short
        vec![0x01, 0xC9, 0x03],
        vec![0x01, 0x93, 0x01, 0x02],
        vec![0x01, 0xA1, 0x01, 0x01],
        vec![0x01, 0xA1, 0xD0, 0x01],
        vec![0x01, 0x82, 0xC3, 0x28],
        vec![0x01, 0xD0, 0x02, 0xC3, 0x28],
        vec![0x01, 0xB2, 0x4E, 0x01],
        vec![0x01, 0xDC, 0x02, 0x4E, 0x01],
    ] {
        let mut d = decoder(&bytes);
        assert_eq!(d.read(), Ok(Value::Int(1)));
        assert_eq!(d.index, 1);
        assert!(d.read().is_err());
        assert_eq!(d.index, 1);
    }
    let bytes = [0xD1, 0x01];
    let mut d = decoder(&bytes);
    assert!(d.read_string_length().is_err());
    assert_eq!(d.index, 0);
    let bytes = [0x01];
    let mut d = decoder(&bytes);
    assert!(d.read_string_length().is_err());
    assert_eq!(d.index, 0);
    let bytes = [0xFF, 0xFF];
    let mut d = decoder(&bytes);
    assert!(d.read_string(2).is_err());
    assert_eq!(d.index, 0);
}
