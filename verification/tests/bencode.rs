use rco::bencode::decoder::{decode, BencodeDecoder};
use rco::bencode::encoder::{encode_to_vec, BencodeEncoder};
use rco::bencode::grammar::BencodeValue;
use rco::bencode::sort::{is_lex_less, sort_keys_lexicographic, validate_key_order};
use rco::error::RcoError;

fn encode(value: &BencodeValue) -> Vec<u8> {
    encode_to_vec(value).expect("encoding failed")
}

// ── Roundtrip (encode → decode) ──────────────────────────────────

#[test]
fn test_roundtrip_integer() {
    let original = BencodeValue::integer(42);
    let encoded = encode_to_vec(&original).unwrap();
    let decoded = decode(&encoded).unwrap();
    assert_eq!(original, decoded);
}

#[test]
fn test_roundtrip_negative_integer() {
    let original = BencodeValue::integer(-99);
    let encoded = encode_to_vec(&original).unwrap();
    let decoded = decode(&encoded).unwrap();
    assert_eq!(original, decoded);
}

#[test]
fn test_roundtrip_zero() {
    let original = BencodeValue::integer(0);
    let encoded = encode_to_vec(&original).unwrap();
    let decoded = decode(&encoded).unwrap();
    assert_eq!(original, decoded);
}

#[test]
fn test_roundtrip_string() {
    let original = BencodeValue::string("hello world");
    let encoded = encode_to_vec(&original).unwrap();
    let decoded = decode(&encoded).unwrap();
    assert_eq!(original, decoded);
}

#[test]
fn test_roundtrip_empty_string() {
    let original = BencodeValue::string("");
    let encoded = encode_to_vec(&original).unwrap();
    let decoded = decode(&encoded).unwrap();
    assert_eq!(original, decoded);
}

#[test]
fn test_roundtrip_list() {
    let original = BencodeValue::List(vec![
        BencodeValue::integer(1),
        BencodeValue::string("two"),
        BencodeValue::integer(3),
    ]);
    let encoded = encode_to_vec(&original).unwrap();
    let decoded = decode(&encoded).unwrap();
    assert_eq!(original, decoded);
}

#[test]
fn test_roundtrip_dict() {
    let mut original = BencodeValue::dict();
    original.insert(b"alpha", BencodeValue::integer(1)).unwrap();
    original.insert(b"beta", BencodeValue::string("two")).unwrap();
    original.insert(b"gamma", BencodeValue::integer(3)).unwrap();

    let encoded = encode_to_vec(&original).unwrap();
    let decoded = decode(&encoded).unwrap();
    assert_eq!(original, decoded);
}

#[test]
fn test_roundtrip_nested_dict() {
    let mut inner = BencodeValue::dict();
    inner.insert(b"x", BencodeValue::integer(10)).unwrap();

    let mut outer = BencodeValue::dict();
    outer.insert(b"inner", inner).unwrap();
    outer.insert(b"val", BencodeValue::string("test")).unwrap();

    let encoded = encode_to_vec(&outer).unwrap();
    let decoded = decode(&encoded).unwrap();
    assert_eq!(outer, decoded);
}

#[test]
fn test_roundtrip_p14_reward() {
    let reward = 314_159_265_358_979_3_i128;
    let original = BencodeValue::integer(reward);
    let encoded = encode_to_vec(&original).unwrap();
    let decoded = decode(&encoded).unwrap();
    assert_eq!(original, decoded);
}

// ── Strict grammar rejection ─────────────────────────────────────

#[test]
fn test_reject_leading_zeros() {
    let result = decode(b"i03e");
    assert!(matches!(result, Err(RcoError::InvalidInteger { .. })));
}

#[test]
fn test_reject_negative_zero() {
    let result = decode(b"i-0e");
    assert!(matches!(result, Err(RcoError::InvalidInteger { .. })));
}

#[test]
fn test_reject_unordered_dict_keys() {
    let result = decode(b"d1:b1:x1:a1:ye");
    assert!(matches!(result, Err(RcoError::KeyOrderViolation)));
}

#[test]
fn test_reject_duplicate_dict_keys() {
    let result = decode(b"d1:a1:x1:a1:ye");
    assert!(matches!(result, Err(RcoError::DuplicateKey)));
}

#[test]
fn test_reject_trailing_data() {
    let result = decode(b"i42eextra");
    assert!(matches!(result, Err(RcoError::InvalidGrammar { .. })));
}

#[test]
fn test_reject_empty_input() {
    let result = decode(b"");
    assert!(matches!(result, Err(RcoError::InvalidGrammar { .. })));
}

#[test]
fn test_decode_reencode_deterministic() {
    let input = b"d5:alphai1e4:beta4:test5:gammai3ee";
    let decoded = decode(input).unwrap();
    let reencoded = encode_to_vec(&decoded).unwrap();
    assert_eq!(input.as_slice(), reencoded.as_slice());
}

// ── Integer encoding ─────────────────────────────────────────────

#[test]
fn test_encode_integer_zero() {
    assert_eq!(encode(&BencodeValue::integer(0)), b"i0e");
}

#[test]
fn test_encode_integer_positive() {
    assert_eq!(encode(&BencodeValue::integer(42)), b"i42e");
}

#[test]
fn test_encode_integer_negative() {
    assert_eq!(encode(&BencodeValue::integer(-7)), b"i-7e");
}

#[test]
fn test_encode_integer_large() {
    let p14 = 314_159_000_000_000_000_i128;
    let encoded = encode(&BencodeValue::integer(p14));
    assert_eq!(encoded, b"i314159000000000000e");
}

#[test]
fn test_encode_integer_i128_max() {
    let max = i128::MAX;
    let encoded = encode(&BencodeValue::integer(max));
    let expected = format!("i{max}e");
    assert_eq!(encoded, expected.as_bytes());
}

// ── String encoding ──────────────────────────────────────────────

#[test]
fn test_encode_string_empty() {
    assert_eq!(encode(&BencodeValue::string("")), b"0:");
}

#[test]
fn test_encode_string_simple() {
    assert_eq!(encode(&BencodeValue::string("spam")), b"4:spam");
}

#[test]
fn test_encode_string_binary() {
    let data = &[0x00, 0xFF, 0x42];
    assert_eq!(encode(&BencodeValue::bytes(data)), &[b'3', b':', 0x00, 0xFF, 0x42]);
}

// ── List encoding ────────────────────────────────────────────────

#[test]
fn test_encode_list_empty() {
    assert_eq!(encode(&BencodeValue::List(vec![])), b"le");
}

#[test]
fn test_encode_list_mixed() {
    let list = BencodeValue::List(vec![BencodeValue::string("hello"), BencodeValue::integer(123)]);
    assert_eq!(encode(&list), b"l5:helloi123ee");
}

// ── Dictionary encoding ──────────────────────────────────────────

#[test]
fn test_encode_dict_sorted() {
    let mut dict = BencodeValue::dict();
    dict.insert(b"b", BencodeValue::integer(2)).unwrap();
    dict.insert(b"a", BencodeValue::integer(1)).unwrap();
    assert_eq!(encode(&dict), b"d1:ai1e1:bi2ee");
}

#[test]
fn test_encode_dict_nested() {
    let mut inner = BencodeValue::dict();
    inner.insert(b"x", BencodeValue::integer(10)).unwrap();

    let mut outer = BencodeValue::dict();
    outer.insert(b"inner", inner).unwrap();
    outer.insert(b"val", BencodeValue::string("test")).unwrap();

    let encoded = encode(&outer);
    assert_eq!(encoded, b"d5:innerd1:xi10ee3:val4:teste");
}

#[test]
fn test_encode_rco_batch() {
    let mut batch = BencodeValue::dict();
    batch.insert(b"batch_index", BencodeValue::integer(42)).unwrap();
    batch.insert(b"reward", BencodeValue::integer(314_159_265_358_979_3_i128)).unwrap();
    batch
        .insert(b"run_uuid", BencodeValue::string("550e8400-e29b-41d4-a716-446655440000"))
        .unwrap();

    let encoded = encode(&batch);

    assert_eq!(encoded[0], b'd');
    assert_eq!(*encoded.last().unwrap(), b'e');

    let s = String::from_utf8_lossy(&encoded);
    let bi_pos = s.find("11:batch_index").unwrap();
    let rw_pos = s.find("6:reward").unwrap();
    let ru_pos = s.find("8:run_uuid").unwrap();
    assert!(bi_pos < rw_pos);
    assert!(rw_pos < ru_pos);
}

// ── Encoder errors ───────────────────────────────────────────────

#[test]
fn test_encode_buffer_too_small() {
    let value = BencodeValue::string("hello");
    let mut buf = [0u8; 3];
    let mut encoder = BencodeEncoder::new(&mut buf);
    let result = encoder.encode(&value);
    assert!(matches!(result, Err(RcoError::BufferTooSmall { .. })));
}

#[test]
fn test_encode_depth_limit() {
    let mut value = BencodeValue::integer(0);
    for _ in 0..18 {
        value = BencodeValue::List(vec![value]);
    }
    let mut buf = [0u8; 1024];
    let mut encoder = BencodeEncoder::new(&mut buf);
    let result = encoder.encode(&value);
    assert!(matches!(result, Err(RcoError::RecursionDepthExceeded { .. })));
}

#[test]
fn test_encode_deterministic_repeated() {
    let mut dict = BencodeValue::dict();
    dict.insert(b"key", BencodeValue::integer(42)).unwrap();

    let a = encode(&dict);
    let b = encode(&dict);
    assert_eq!(a, b, "Repeated encoding must be bit-identical");
}

// ── Grammar helpers ──────────────────────────────────────────────

#[test]
fn test_dict_insert_maintains_order() {
    let mut dict = BencodeValue::dict();
    dict.insert(b"c", BencodeValue::integer(3)).unwrap();
    dict.insert(b"a", BencodeValue::integer(1)).unwrap();
    dict.insert(b"b", BencodeValue::integer(2)).unwrap();

    if let BencodeValue::Dict(entries) = &dict {
        assert_eq!(entries[0].0, b"a");
        assert_eq!(entries[1].0, b"b");
        assert_eq!(entries[2].0, b"c");
    } else {
        panic!("Expected Dict");
    }
}

#[test]
fn test_dict_insert_rejects_duplicate() {
    let mut dict = BencodeValue::dict();
    dict.insert(b"key", BencodeValue::integer(1)).unwrap();
    assert!(dict.insert(b"key", BencodeValue::integer(2)).is_err());
}

#[test]
fn test_encoded_size_integer() {
    assert_eq!(BencodeValue::integer(0).encoded_size(), 3);
    assert_eq!(BencodeValue::integer(42).encoded_size(), 4);
    assert_eq!(BencodeValue::integer(-1).encoded_size(), 4);
}

#[test]
fn test_encoded_size_string() {
    assert_eq!(BencodeValue::string("abc").encoded_size(), 5);
    assert_eq!(BencodeValue::string("").encoded_size(), 2);
}

// ── Key order ────────────────────────────────────────────────────

#[test]
fn test_valid_order() {
    let keys: &[&[u8]] = &[b"a", b"b", b"c", b"z"];
    assert!(validate_key_order(keys).is_ok());
}

#[test]
fn test_invalid_order() {
    let keys: &[&[u8]] = &[b"b", b"a"];
    assert_eq!(validate_key_order(keys), Err(RcoError::KeyOrderViolation));
}

#[test]
fn test_duplicate_keys() {
    let keys: &[&[u8]] = &[b"a", b"a"];
    assert_eq!(validate_key_order(keys), Err(RcoError::DuplicateKey));
}

#[test]
fn test_empty_keys() {
    let keys: &[&[u8]] = &[];
    assert!(validate_key_order(keys).is_ok());
}

#[test]
fn test_single_key() {
    let keys: &[&[u8]] = &[b"only"];
    assert!(validate_key_order(keys).is_ok());
}

#[test]
fn test_byte_level_comparison() {
    let keys: &[&[u8]] = &[b"a", b"b"];
    assert!(validate_key_order(keys).is_ok());

    let keys: &[&[u8]] = &[b"ab", b"abc"];
    assert!(validate_key_order(keys).is_ok());
}

#[test]
fn test_sort_produces_valid_order() {
    let mut entries: Vec<(Vec<u8>, i32)> = vec![
        (b"zebra".to_vec(), 3),
        (b"alpha".to_vec(), 1),
        (b"beta".to_vec(), 2),
    ];
    sort_keys_lexicographic(&mut entries);
    assert_eq!(entries[0].0, b"alpha");
    assert_eq!(entries[1].0, b"beta");
    assert_eq!(entries[2].0, b"zebra");
}

// ── Further cases ────────────────────────────────────────────────

#[test]
fn test_sort_is_stable_for_equal_keys() {
    let mut entries: Vec<(Vec<u8>, i32)> = vec![
        (b"k".to_vec(), 1),
        (b"a".to_vec(), 0),
        (b"k".to_vec(), 2),
        (b"k".to_vec(), 3),
    ];
    sort_keys_lexicographic(&mut entries);
    let values: Vec<i32> = entries.iter().map(|e| e.1).collect();
    assert_eq!(values, vec![0, 1, 2, 3]);
}

#[test]
fn test_is_lex_less_prefix_and_bytes() {
    assert!(is_lex_less(b"ab", b"abc"));
    assert!(!is_lex_less(b"abc", b"ab"));
    assert!(is_lex_less(b"a", b"b"));
    assert!(!is_lex_less(b"a", b"a"));
    assert!(is_lex_less(b"", b"a"));
}

#[test]
fn test_encode_i128_min_writes_full_magnitude() {
    let v = BencodeValue::integer(i128::MIN);
    let encoded = encode(&v);
    assert_eq!(encoded, b"i-170141183460469231731687303715884105728e".to_vec());
    assert_eq!(v.encoded_size(), 42);
    assert_eq!(encoded.len(), 42);
    // The decoder reads the magnitude as a nonnegative i128, which 2^127 overflows.
    assert!(matches!(decode(&encoded), Err(RcoError::InvalidInteger { offset: 0 })));
}

#[test]
fn test_encode_i128_max_roundtrips() {
    let v = BencodeValue::integer(i128::MAX);
    let encoded = encode(&v);
    assert_eq!(encoded, b"i170141183460469231731687303715884105727e".to_vec());
    assert_eq!(v.encoded_size(), 41);
    assert_eq!(decode(&encoded).unwrap(), v);
}

#[test]
fn test_reject_string_length_leading_zero() {
    assert_eq!(
        decode(b"03:abc"),
        Err(RcoError::InvalidGrammar { offset: 0, detail: "leading zero in string length" })
    );
    assert_eq!(
        decode(b"d01:ai1ee"),
        Err(RcoError::InvalidGrammar { offset: 1, detail: "leading zero in string length" })
    );
    // A lone zero is the canonical length of the empty string.
    assert_eq!(decode(b"0:").unwrap(), BencodeValue::Bytes(Vec::new()));
}

#[test]
fn test_decode_error_details() {
    assert_eq!(
        decode(b"x"),
        Err(RcoError::InvalidGrammar { offset: 0, detail: "unexpected byte at start of value" })
    );
    assert_eq!(
        decode(b"3abc"),
        Err(RcoError::InvalidGrammar { offset: 1, detail: "expected ':' after string length" })
    );
    assert_eq!(
        decode(b"5:abc"),
        Err(RcoError::InvalidGrammar { offset: 2, detail: "string length exceeds remaining input" })
    );
    assert_eq!(decode(b"i1x"), Err(RcoError::InvalidGrammar { offset: 2, detail: "unexpected byte" }));
    assert_eq!(decode(b"ie"), Err(RcoError::InvalidInteger { offset: 0 }));
    assert_eq!(
        decode(b"i170141183460469231731687303715884105728e"),
        Err(RcoError::InvalidInteger { offset: 0 })
    );
    assert_eq!(
        decode(b"99999999999999999999999:x"),
        Err(RcoError::InvalidGrammar { offset: 0, detail: "string length overflow" })
    );
    assert_eq!(
        decode(b"l"),
        Err(RcoError::InvalidGrammar { offset: 1, detail: "unexpected end of input" })
    );
}

#[test]
fn test_decode_depth_limit() {
    let mut input = Vec::new();
    for _ in 0..17 {
        input.push(b'l');
    }
    input.extend_from_slice(b"i0e");
    for _ in 0..17 {
        input.push(b'e');
    }
    assert_eq!(decode(&input), Err(RcoError::RecursionDepthExceeded { depth: 17 }));
    let ok: Vec<u8> = input[1..input.len() - 1].to_vec();
    assert!(decode(&ok).is_ok());
}

#[test]
fn test_decoder_cursor_advances() {
    let data = b"i1e3:abc";
    let mut decoder = BencodeDecoder::new(data);
    assert_eq!(decoder.decode().unwrap(), BencodeValue::integer(1));
    assert_eq!(decoder.offset(), 3);
    assert_eq!(decoder.remaining(), 5);
    assert_eq!(decoder.decode().unwrap(), BencodeValue::string("abc"));
    assert_eq!(decoder.remaining(), 0);
}

#[test]
fn test_encoder_dict_out_of_order_rejected() {
    let value = BencodeValue::Dict(vec![
        (b"b".to_vec(), BencodeValue::integer(1)),
        (b"a".to_vec(), BencodeValue::integer(2)),
    ]);
    assert_eq!(encode_to_vec(&value), Err(RcoError::KeyOrderViolation));
    let dup = BencodeValue::Dict(vec![
        (b"a".to_vec(), BencodeValue::integer(1)),
        (b"a".to_vec(), BencodeValue::integer(2)),
    ]);
    assert_eq!(encode_to_vec(&dup), Err(RcoError::DuplicateKey));
}

#[test]
fn test_buffer_too_small_required() {
    let value = BencodeValue::string("hello");
    let mut buf = [0u8; 3];
    let mut encoder = BencodeEncoder::new(&mut buf);
    assert_eq!(encoder.encode(&value), Err(RcoError::BufferTooSmall { required: 7, available: 3 }));
    let mut small = [0u8; 1];
    let mut encoder = BencodeEncoder::new(&mut small);
    assert_eq!(encoder.encode(&value), Err(RcoError::BufferTooSmall { required: 2, available: 1 }));
}

#[test]
fn test_push_and_encoded_size_nested() {
    let mut list = BencodeValue::list();
    list.push(BencodeValue::integer(123)).unwrap();
    list.push(BencodeValue::string("hello")).unwrap();
    assert!(BencodeValue::integer(5).push(BencodeValue::integer(1)).is_err());
    assert!(BencodeValue::list().insert(b"k", BencodeValue::integer(1)).is_err());
    assert_eq!(list.encoded_size(), encode(&list).len());
    assert_eq!(encode(&list), b"li123e5:helloe");
}

#[test]
fn clone_is_a_deep_copy() {
    let mut dict = BencodeValue::dict();
    dict.insert(b"k", BencodeValue::List(vec![BencodeValue::integer(-3), BencodeValue::bytes(b"xy")])).unwrap();
    let copy = dict.clone();
    assert_eq!(copy, dict);
    assert_eq!(encode_to_vec(&copy).unwrap(), encode_to_vec(&dict).unwrap());
}

#[test]
fn encode_writes_only_the_prefix_it_needs() {
    let v = BencodeValue::integer(42);
    assert_eq!(v.encoded_size(), 4);
    let mut buf = [0xAAu8; 8];
    {
        let mut enc = BencodeEncoder::new(&mut buf);
        assert_eq!(enc.encode(&v), Ok(4));
        // A second encode starts again from the beginning of the buffer.
        assert_eq!(enc.encode(&v), Ok(4));
    }
    assert_eq!(&buf[..4], b"i42e");
    assert_eq!(&buf[4..], &[0xAAu8; 4]);
    let mut exact = [0u8; 4];
    assert_eq!(BencodeEncoder::new(&mut exact).encode(&v), Ok(4));
    let mut small = [0u8; 3];
    assert!(matches!(BencodeEncoder::new(&mut small).encode(&v), Err(RcoError::BufferTooSmall { .. })));
}

#[test]
fn decoder_consumes_exactly_one_value() {
    let data = b"i1e4:spaml1:xei-2e";
    let mut d = BencodeDecoder::new(data);
    let mut starts = vec![0usize];
    let mut values = Vec::new();
    while d.remaining() > 0 {
        let v = d.decode().unwrap();
        let o = *starts.last().unwrap();
        assert!(d.offset() > o);
        assert_eq!(decode(&data[o..d.offset()]).unwrap(), v);
        starts.push(d.offset());
        values.push(v);
    }
    assert_eq!(starts, vec![0, 3, 9, 14, 18]);
    assert_eq!(values.len(), 4);
}
