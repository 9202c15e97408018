use bindecode::kind::{ByteOrder, ParseType};
use bindecode::reader::ChunkReader;
use bindecode::request::{byte_budget, limit_of_number, DecodeRequest, SetupError};
use bindecode::rows::{RowEmitter, Separator};
use bindecode::stream::{decode_reader, DecodeLoop};
use bindecode::value::ScalarValue;

fn request(kind: ParseType, order: ByteOrder) -> DecodeRequest {
    DecodeRequest { kind, order, offset: 0, limit: None, row_width: 1 }
}

fn cell_of(value: &ScalarValue) -> Vec<u8> {
    match value.integer_text() {
        Some(text) => text,
        None => match value {
            ScalarValue::F32(bits) => format!("{}", f32::from_bits(*bits)).into_bytes(),
            ScalarValue::F64(bits) => format!("{}", f64::from_bits(*bits)).into_bytes(),
            other => panic!("no text for {:?}", other),
        },
    }
}

fn render(values: &[ScalarValue], row_width: usize) -> String {
    let mut emitter = RowEmitter::new(row_width);
    let mut text = Vec::new();
    for value in values {
        emitter.output(&cell_of(value), &mut text);
    }
    String::from_utf8(text).unwrap()
}

fn feed_in_pieces(
    kind: ParseType,
    order: ByteOrder,
    budget: u64,
    data: &[u8],
    piece: usize,
) -> Vec<ScalarValue> {
    let mut state = DecodeLoop::new(kind, order, budget);
    let mut out = Vec::new();
    for chunk in data.chunks(piece) {
        state.feed(chunk, &mut out);
    }
    out
}

const SAMPLE: [u8; 8] = [0x00, 0x00, 0x80, 0x3F, 0x00, 0x00, 0x80, 0xBF];

#[test]
fn two_floats_print_as_one_row() {
    let mut req = request(ParseType::F32, ByteOrder::LittleEndian);
    req.row_width = 2;
    let values = req.decode_image(&SAMPLE, 4096).unwrap();
    assert_eq!(
        values,
        vec![ScalarValue::F32(1.0f32.to_bits()), ScalarValue::F32((-1.0f32).to_bits())]
    );
    assert_eq!(render(&values, req.row_width), "1 -1\n");
}

#[test]
fn same_bytes_as_u8_print_eight_rows() {
    let req = request(ParseType::U8, ByteOrder::LittleEndian);
    let values = req.decode_image(&SAMPLE, 4096).unwrap();
    let expected: Vec<ScalarValue> =
        [0u8, 0, 128, 63, 0, 0, 128, 191].iter().map(|b| ScalarValue::U8(*b)).collect();
    assert_eq!(values, expected);
    assert_eq!(render(&values, 1), "0\n0\n128\n63\n0\n0\n128\n191\n");
}

#[test]
fn offset_at_end_of_file_is_refused() {
    let mut req = request(ParseType::U8, ByteOrder::LittleEndian);
    req.offset = 8;
    assert_eq!(
        req.decode_image(&SAMPLE, 4096),
        Err(SetupError::OffsetOutOfRange { offset: 8, file_size: 8 })
    );
    assert_eq!(
        req.plan(false, 8),
        Err(SetupError::OffsetOutOfRange { offset: 8, file_size: 8 })
    );
    req.offset = 9;
    assert_eq!(
        req.plan(false, 8),
        Err(SetupError::OffsetOutOfRange { offset: 9, file_size: 8 })
    );
}

#[test]
fn empty_file_is_refused() {
    let req = request(ParseType::U32, ByteOrder::LittleEndian);
    assert_eq!(
        req.decode_image(&[], 16),
        Err(SetupError::OffsetOutOfRange { offset: 0, file_size: 0 })
    );
}

#[test]
fn directory_is_refused_before_the_offset_is_looked_at() {
    let mut req = request(ParseType::U8, ByteOrder::LittleEndian);
    assert_eq!(req.plan(true, 100), Err(SetupError::IsDirectory));
    req.offset = 500;
    assert_eq!(req.plan(true, 100), Err(SetupError::IsDirectory));
}

#[test]
fn plan_gives_the_byte_budget() {
    let mut req = request(ParseType::U32, ByteOrder::LittleEndian);
    assert_eq!(req.plan(false, 100), Ok(100));
    req.offset = 10;
    assert_eq!(req.plan(false, 100), Ok(90));
    req.limit = Some(5);
    assert_eq!(req.plan(false, 100), Ok(20));
    req.limit = Some(23);
    assert_eq!(req.plan(false, 100), Ok(90));
    req.limit = Some(0);
    assert_eq!(req.plan(false, 100), Ok(0));
}

#[test]
fn byte_budget_is_the_smaller_of_limit_and_rest() {
    assert_eq!(byte_budget(ParseType::U16, None, 77), 77);
    assert_eq!(byte_budget(ParseType::U16, Some(10), 77), 20);
    assert_eq!(byte_budget(ParseType::U16, Some(38), 77), 76);
    assert_eq!(byte_budget(ParseType::U16, Some(39), 77), 77);
    assert_eq!(byte_budget(ParseType::F64, Some(3), 1000), 24);
    assert_eq!(byte_budget(ParseType::U8, Some(0), 1000), 0);
}

#[test]
fn overflowing_limit_means_rest_of_file() {
    assert_eq!(byte_budget(ParseType::U64, Some(u64::MAX), 4096), 4096);
    assert_eq!(byte_budget(ParseType::U64, Some(u64::MAX / 8 + 1), 4096), 4096);
    assert_eq!(byte_budget(ParseType::U16, Some(1 << 63), u64::MAX), u64::MAX);
}

#[test]
fn largest_count_means_no_limit() {
    assert_eq!(limit_of_number(i64::MAX), None);
    assert_eq!(limit_of_number(i64::MAX - 1), Some((i64::MAX - 1) as u64));
    assert_eq!(limit_of_number(0), Some(0));
    assert_eq!(limit_of_number(7), Some(7));
    assert_eq!(limit_of_number(-1), Some(0));
    assert_eq!(limit_of_number(i64::MIN), Some(0));
}

#[test]
fn whole_file_yields_one_value_per_complete_group() {
    let data: Vec<u8> = (0..=255u8).cycle().take(1003).collect();
    let kinds = [
        ParseType::U8,
        ParseType::U16,
        ParseType::U32,
        ParseType::U64,
        ParseType::I8,
        ParseType::I16,
        ParseType::I32,
        ParseType::I64,
        ParseType::F32,
        ParseType::F64,
    ];
    for kind in kinds.iter() {
        let values = request(*kind, ByteOrder::BigEndian).decode_image(&data, 64).unwrap();
        assert_eq!(values.len(), 1003 / kind.width());
        for value in values.iter() {
            assert_eq!(value.kind(), *kind);
        }
    }
    let words = request(ParseType::U16, ByteOrder::BigEndian).decode_image(&data, 64).unwrap();
    assert_eq!(words[0], ScalarValue::U16(0x0001));
    assert_eq!(words[1], ScalarValue::U16(0x0203));
    assert_eq!(words[500], ScalarValue::U16(0xE8E9));
}

#[test]
fn block_size_is_not_observable() {
    let data: Vec<u8> = (0..5000u32).map(|i| (i * 7 + 3) as u8).collect();
    for kind in [ParseType::U8, ParseType::I16, ParseType::F32, ParseType::U64].iter() {
        for order in [ByteOrder::LittleEndian, ByteOrder::BigEndian].iter() {
            let mut req = request(*kind, *order);
            req.offset = 3;
            req.limit = Some(600);
            let reference = req.decode_image(&data, 4096).unwrap();
            for block in [1usize, 2, 3, 5, 7, 8, 9, 4095, 4097, 1 << 20, usize::MAX].iter() {
                assert_eq!(req.decode_image(&data, *block).unwrap(), reference);
            }
        }
    }
}

#[test]
fn feeding_in_any_pieces_gives_the_same_values() {
    let data: Vec<u8> = (0..200u32).map(|i| (i * 13 + 1) as u8).collect();
    let whole = feed_in_pieces(ParseType::U32, ByteOrder::LittleEndian, 200, &data, 200);
    assert_eq!(whole.len(), 50);
    assert_eq!(whole[0], ScalarValue::U32(u32::from_le_bytes([1, 14, 27, 40])));
    for piece in 1..=17usize {
        assert_eq!(
            feed_in_pieces(ParseType::U32, ByteOrder::LittleEndian, 200, &data, piece),
            whole
        );
    }
}

#[test]
fn round_trip_of_known_values() {
    let values: [i32; 6] = [0, 1, -1, i32::MIN, i32::MAX, 123_456_789];
    let mut le = Vec::new();
    let mut be = Vec::new();
    for value in values.iter() {
        le.extend_from_slice(&value.to_le_bytes());
        be.extend_from_slice(&value.to_be_bytes());
    }
    let expected: Vec<ScalarValue> = values.iter().map(|v| ScalarValue::I32(*v)).collect();
    assert_eq!(
        request(ParseType::I32, ByteOrder::LittleEndian).decode_image(&le, 5).unwrap(),
        expected
    );
    assert_eq!(
        request(ParseType::I32, ByteOrder::BigEndian).decode_image(&be, 5).unwrap(),
        expected
    );
}

#[test]
fn round_trip_of_floats() {
    let values: [f64; 5] = [0.0, -0.0, 1.5, -2.25e300, f64::INFINITY];
    let mut bytes = Vec::new();
    for value in values.iter() {
        bytes.extend_from_slice(&value.to_be_bytes());
    }
    let decoded = request(ParseType::F64, ByteOrder::BigEndian).decode_image(&bytes, 3).unwrap();
    assert_eq!(decoded.len(), values.len());
    for (got, want) in decoded.iter().zip(values.iter()) {
        assert_eq!(*got, ScalarValue::F64(want.to_bits()));
    }
}

#[test]
fn round_trip_of_unsigned_words() {
    let values: [u16; 5] = [0, 1, 0x00FF, 0xFF00, u16::MAX];
    let mut bytes = Vec::new();
    for value in values.iter() {
        bytes.extend_from_slice(&value.to_le_bytes());
    }
    let decoded =
        request(ParseType::U16, ByteOrder::LittleEndian).decode_image(&bytes, 4096).unwrap();
    let expected: Vec<ScalarValue> = values.iter().map(|v| ScalarValue::U16(*v)).collect();
    assert_eq!(decoded, expected);
}

#[test]
fn trailing_partial_group_is_dropped() {
    let data = [1u8, 0, 0, 0, 2, 0, 0, 0, 3, 0, 0];
    for block in [1usize, 3, 4, 11, 4096].iter() {
        let values =
            request(ParseType::U32, ByteOrder::LittleEndian).decode_image(&data, *block).unwrap();
        assert_eq!(values, vec![ScalarValue::U32(1), ScalarValue::U32(2)]);
    }
    let short = request(ParseType::U64, ByteOrder::LittleEndian).decode_image(&data[..7], 2);
    assert_eq!(short, Ok(Vec::new()));
}

#[test]
fn offset_discards_leading_values() {
    let data: Vec<u8> = (0..64u8).collect();
    let all = request(ParseType::U16, ByteOrder::BigEndian).decode_image(&data, 7).unwrap();
    for skipped in 1..32usize {
        let mut req = request(ParseType::U16, ByteOrder::BigEndian);
        req.offset = (skipped * 2) as u64;
        assert_eq!(req.decode_image(&data, 7).unwrap(), all[skipped..].to_vec());
    }
}

#[test]
fn unaligned_offset_shifts_the_groups() {
    let data = [0xAAu8, 0x01, 0x02, 0x03, 0x04, 0x05];
    let mut req = request(ParseType::U16, ByteOrder::BigEndian);
    req.offset = 1;
    assert_eq!(
        req.decode_image(&data, 4096).unwrap(),
        vec![ScalarValue::U16(0x0102), ScalarValue::U16(0x0304)]
    );
}

#[test]
fn limit_bounds_the_number_of_values() {
    let data: Vec<u8> = (0..40u8).collect();
    let all = request(ParseType::U32, ByteOrder::LittleEndian).decode_image(&data, 6).unwrap();
    assert_eq!(all.len(), 10);
    for count in 0..=10usize {
        let mut req = request(ParseType::U32, ByteOrder::LittleEndian);
        req.limit = Some(count as u64);
        assert_eq!(req.decode_image(&data, 6).unwrap(), all[..count].to_vec());
    }
    let mut req = request(ParseType::U32, ByteOrder::LittleEndian);
    req.limit = Some(11);
    assert_eq!(req.decode_image(&data, 6).unwrap(), all);
    req.limit = Some(u64::MAX);
    assert_eq!(req.decode_image(&data, 6).unwrap(), all);
}

#[test]
fn limit_of_zero_emits_nothing() {
    let mut req = request(ParseType::U8, ByteOrder::LittleEndian);
    req.limit = Some(0);
    assert_eq!(req.decode_image(&SAMPLE, 4096), Ok(Vec::new()));
    let mut state = DecodeLoop::new(ParseType::U8, ByteOrder::LittleEndian, 0);
    assert!(state.is_finished());
    assert_eq!(state.next_read_len(4096), 0);
    let mut out = Vec::new();
    state.feed(&SAMPLE, &mut out);
    assert!(out.is_empty());
    assert_eq!(state.consumed(), 0);
}

#[test]
fn loop_carries_a_split_group() {
    let mut state = DecodeLoop::new(ParseType::U32, ByteOrder::BigEndian, 100);
    let mut out = Vec::new();
    state.feed(&[0x01, 0x02, 0x03], &mut out);
    assert!(out.is_empty());
    assert_eq!(state.pending(), 3);
    assert_eq!(state.consumed(), 3);
    assert_eq!(state.remaining(), 97);
    assert_eq!(state.budget(), 100);
    state.feed(&[], &mut out);
    assert!(out.is_empty());
    assert_eq!(state.pending(), 3);
    state.feed(&[0x04, 0x05], &mut out);
    assert_eq!(out, vec![ScalarValue::U32(0x0102_0304)]);
    assert_eq!(state.pending(), 1);
    state.feed(&[0x06, 0x07, 0x08, 0x09, 0x0A, 0x0B, 0x0C], &mut out);
    assert_eq!(
        out,
        vec![
            ScalarValue::U32(0x0102_0304),
            ScalarValue::U32(0x0506_0708),
            ScalarValue::U32(0x090A_0B0C)
        ]
    );
    assert_eq!(state.pending(), 0);
    assert_eq!(state.consumed(), 12);
    assert_eq!(state.kind(), ParseType::U32);
    assert_eq!(state.order(), ByteOrder::BigEndian);
}

#[test]
fn loop_ignores_bytes_beyond_the_budget() {
    let mut state = DecodeLoop::new(ParseType::U16, ByteOrder::LittleEndian, 5);
    let mut out = vec![ScalarValue::U8(9)];
    assert_eq!(state.next_read_len(4096), 5);
    assert_eq!(state.next_read_len(3), 3);
    state.feed(&[1, 0, 2, 0, 3, 0, 4, 0], &mut out);
    assert_eq!(out, vec![ScalarValue::U8(9), ScalarValue::U16(1), ScalarValue::U16(2)]);
    assert_eq!(state.consumed(), 5);
    assert_eq!(state.remaining(), 0);
    assert_eq!(state.pending(), 1);
    assert!(state.is_finished());
    state.feed(&[5, 0], &mut out);
    assert_eq!(out.len(), 3);
    assert_eq!(state.consumed(), 5);
}

#[test]
fn reader_delivers_each_byte_once() {
    let data: Vec<u8> = (0..10u8).collect();
    let mut reader = ChunkReader::new(&data, 2, 4);
    assert_eq!(reader.next_chunk(3), &[2u8, 3, 4][..]);
    assert_eq!(reader.next_chunk(100), &[5u8, 6, 7, 8][..]);
    assert_eq!(reader.next_chunk(0), &[0u8; 0][..]);
    assert_eq!(reader.next_chunk(100), &[9u8][..]);
    assert_eq!(reader.next_chunk(100), &[0u8; 0][..]);
    assert_eq!(reader.next_chunk(1), &[0u8; 0][..]);
}

#[test]
fn decode_reader_stops_at_the_budget() {
    let data: Vec<u8> = (1..=10u8).collect();
    let mut reader = ChunkReader::new(&data, 0, 3);
    let values = decode_reader(ParseType::U16, ByteOrder::BigEndian, 5, &mut reader);
    assert_eq!(values, vec![ScalarValue::U16(0x0102), ScalarValue::U16(0x0304)]);
    assert_eq!(reader.next_chunk(100), &[6u8, 7, 8][..]);
}

#[test]
fn row_break_follows_every_full_row() {
    for row_width in 1..=6usize {
        let mut emitter = RowEmitter::new(row_width);
        assert_eq!(emitter.row_width(), row_width);
        for count in 1..=40usize {
            let separator = emitter.advance();
            if count % row_width == 0 {
                assert_eq!(separator, Separator::LineBreak);
            } else {
                assert_eq!(separator, Separator::Space);
            }
            assert_eq!(emitter.position(), count % row_width);
        }
    }
}

#[test]
fn row_width_of_zero_breaks_after_every_value() {
    let mut emitter = RowEmitter::new(0);
    for _ in 0..5 {
        assert_eq!(emitter.advance(), Separator::LineBreak);
        assert_eq!(emitter.position(), 0);
    }
}

#[test]
fn rows_of_three() {
    let values: Vec<ScalarValue> = (1..=7i16).map(|v| ScalarValue::I16(-v)).collect();
    assert_eq!(render(&values, 3), "-1 -2 -3\n-4 -5 -6\n-7 ");
}

#[test]
fn output_appends_cell_and_separator() {
    let mut emitter = RowEmitter::new(2);
    let mut text = b"> ".to_vec();
    emitter.output(b"12", &mut text);
    assert_eq!(text, b"> 12 ".to_vec());
    assert_eq!(emitter.position(), 1);
    emitter.output(b"-3", &mut text);
    assert_eq!(text, b"> 12 -3\n".to_vec());
    assert_eq!(emitter.position(), 0);
    emitter.output(b"", &mut text);
    assert_eq!(text, b"> 12 -3\n ".to_vec());
}

#[test]
fn separator_bytes() {
    assert_eq!(Separator::Space.byte(), b' ');
    assert_eq!(Separator::LineBreak.byte(), b'\n');
}
