use membridge::error::ShmError;
use membridge::mixed::{
    pack_item, pack_mixed, pack_value, parse_tag, schema_byte_size, unpack_mixed,
    unpack_mixed_counted, unpack_one, Column, Decoded, Item, TypeTag, Value,
};

fn s(x: &str) -> String {
    x.to_string()
}

fn packed(v: &Value) -> Vec<u8> {
    let mut out = Vec::new();
    pack_value(v, &mut out).unwrap();
    out
}

#[test]
fn pack_bool_is_one_byte() {
    assert_eq!(packed(&Value::Bool(true)), vec![1]);
    assert_eq!(packed(&Value::Bool(false)), vec![0]);
}

#[test]
fn pack_int_is_eight_bytes() {
    assert_eq!(packed(&Value::Int(42)), 42i64.to_le_bytes().to_vec());
    assert_eq!(packed(&Value::Int(-2)), vec![0xfe, 0xff, 0xff, 0xff, 0xff, 0xff, 0xff, 0xff]);
}

#[test]
fn pack_float_is_eight_bytes() {
    let x = 3.14f64;
    assert_eq!(packed(&Value::Float(x.to_bits())), x.to_le_bytes().to_vec());
}

#[test]
fn pack_str_is_length_prefixed_utf8() {
    assert_eq!(packed(&Value::Str(s("hé"))), vec![3, 0, 0, 0, b'h', 0xc3, 0xa9]);
    assert_eq!(packed(&Value::Str(s(""))), vec![0, 0, 0, 0]);
}

#[test]
fn pack_bytes_is_raw() {
    assert_eq!(packed(&Value::Bytes(vec![9, 8, 7])), vec![9, 8, 7]);
}

#[test]
fn pack_appends_to_existing_bytes() {
    let mut out = vec![5u8];
    pack_value(&Value::Bool(true), &mut out).unwrap();
    assert_eq!(out, vec![5, 1]);
}

#[test]
fn pack_unsupported_type_fails_and_writes_nothing() {
    let mut out = vec![5u8];
    let e = pack_value(&Value::Other(s("dict")), &mut out).unwrap_err();
    assert_eq!(
        e,
        ShmError::InvalidArg(s(
            "unsupported type 'dict'; supported: bool, int, float, str, bytes, bytearray"
        ))
    );
    assert_eq!(out, vec![5u8]);
}

#[test]
fn pack_item_list_packs_elements_in_order() {
    let mut out = Vec::new();
    pack_item(&Item::List(vec![Value::Bool(true), Value::Bytes(vec![2, 3])]), &mut out).unwrap();
    assert_eq!(out, vec![1, 2, 3]);
}

#[test]
fn pack_mixed_flattens_nested_lists() {
    let items = vec![
        Item::List(vec![Value::Str(s("a")), Value::Str(s("bc"))]),
        Item::List(vec![Value::Bool(true), Value::Bool(false)]),
        Item::One(Value::Int(1)),
    ];
    let bytes = pack_mixed(&items).unwrap();
    let mut expect = vec![1, 0, 0, 0, b'a', 2, 0, 0, 0, b'b', b'c', 1, 0];
    expect.extend_from_slice(&1i64.to_le_bytes());
    assert_eq!(bytes, expect);
}

#[test]
fn pack_mixed_rejects_nested_unsupported() {
    let items = vec![Item::One(Value::Int(1)), Item::List(vec![Value::Other(s("list"))])];
    assert!(matches!(pack_mixed(&items), Err(ShmError::InvalidArg(_))));
}

#[test]
fn parse_tag_accepts_aliases() {
    assert_eq!(parse_tag("bool"), Some(TypeTag::Bool));
    assert_eq!(parse_tag("int"), Some(TypeTag::I64));
    assert_eq!(parse_tag("i64"), Some(TypeTag::I64));
    assert_eq!(parse_tag("float"), Some(TypeTag::F64));
    assert_eq!(parse_tag("f64"), Some(TypeTag::F64));
    assert_eq!(parse_tag("f32"), Some(TypeTag::F32));
    assert_eq!(parse_tag("i32"), Some(TypeTag::I32));
    assert_eq!(parse_tag("u8"), Some(TypeTag::U8));
    assert_eq!(parse_tag("u32"), Some(TypeTag::U32));
    assert_eq!(parse_tag("u64"), Some(TypeTag::U64));
    assert_eq!(parse_tag("str"), Some(TypeTag::Str));
    assert_eq!(parse_tag("str16"), None);
    assert_eq!(parse_tag(""), None);
}

#[test]
fn unpack_one_reads_each_tag() {
    assert_eq!(unpack_one(&[2, 9], "bool").unwrap(), (Decoded::Bool(true), 1));
    assert_eq!(unpack_one(&[0], "bool").unwrap(), (Decoded::Bool(false), 1));
    assert_eq!(unpack_one(&[200], "u8").unwrap(), (Decoded::U8(200), 1));
    assert_eq!(unpack_one(&(-5i32).to_le_bytes(), "i32").unwrap(), (Decoded::I32(-5), 4));
    assert_eq!(unpack_one(&7u32.to_le_bytes(), "u32").unwrap(), (Decoded::U32(7), 4));
    assert_eq!(
        unpack_one(&1.5f32.to_le_bytes(), "f32").unwrap(),
        (Decoded::F32(1.5f32.to_bits()), 4)
    );
    assert_eq!(unpack_one(&(-9i64).to_le_bytes(), "int").unwrap(), (Decoded::I64(-9), 8));
    assert_eq!(unpack_one(&u64::MAX.to_le_bytes(), "u64").unwrap(), (Decoded::U64(u64::MAX), 8));
    assert_eq!(
        unpack_one(&2.5f64.to_le_bytes(), "float").unwrap(),
        (Decoded::F64(2.5f64.to_bits()), 8)
    );
    assert_eq!(
        unpack_one(&[2, 0, 0, 0, b'o', b'k', b'!'], "str").unwrap(),
        (Decoded::Str(vec![b'o', b'k']), 6)
    );
}

#[test]
fn unpack_one_errors() {
    assert!(matches!(unpack_one(&[], "bool"), Err(ShmError::InvalidArg(_))));
    assert!(matches!(unpack_one(&[1, 2, 3], "i32"), Err(ShmError::InvalidArg(_))));
    assert!(matches!(unpack_one(&[1, 2, 3, 4, 5, 6, 7], "f64"), Err(ShmError::InvalidArg(_))));
    assert!(matches!(unpack_one(&[5, 0, 0, 0, 1], "str"), Err(ShmError::InvalidArg(_))));
    assert!(matches!(unpack_one(&[1, 0], "str"), Err(ShmError::InvalidArg(_))));
    let e = unpack_one(&[1], "nope").unwrap_err();
    assert_eq!(
        e,
        ShmError::InvalidArg(s(
            "unknown type tag 'nope'; supported: bool, int, float, f32, f64, i32, i64, u8, u32, u64, str"
        ))
    );
}

#[test]
fn packed_values_read_back() {
    for v in [Value::Bool(true), Value::Int(i64::MIN), Value::Float(0.92f64.to_bits()), Value::Str(s("héllo"))] {
        let bytes = packed(&v);
        let (tag, expect) = match &v {
            Value::Bool(b) => ("bool", Decoded::Bool(*b)),
            Value::Int(i) => ("int", Decoded::I64(*i)),
            Value::Float(x) => ("float", Decoded::F64(*x)),
            Value::Str(t) => ("str", Decoded::Str(t.as_bytes().to_vec())),
            _ => unreachable!(),
        };
        let mut with_rest = bytes.clone();
        with_rest.extend_from_slice(&[0xaa, 0xbb]);
        assert_eq!(unpack_one(&with_rest, tag).unwrap(), (expect, bytes.len()));
    }
}

#[test]
fn mixed_columns_read_back() {
    let items = vec![
        Item::List(vec![Value::Str(s("Hello")), Value::Str(s("from")), Value::Str(s("producer"))]),
        Item::List(vec![
            Value::Float(0.92f64.to_bits()),
            Value::Float(0.87f64.to_bits()),
            Value::Float(0.95f64.to_bits()),
        ]),
        Item::List(vec![Value::Bool(true), Value::Bool(false), Value::Bool(true)]),
        Item::One(Value::Int(42)),
    ];
    let bytes = pack_mixed(&items).unwrap();
    let schema = vec![(s("str"), 3), (s("float"), 3), (s("bool"), 3), (s("int"), 1)];
    let (cols, n) = unpack_mixed_counted(&bytes, &schema).unwrap();
    assert_eq!(n, bytes.len());
    assert_eq!(
        cols,
        vec![
            Column::Many(vec![
                Decoded::Str(b"Hello".to_vec()),
                Decoded::Str(b"from".to_vec()),
                Decoded::Str(b"producer".to_vec()),
            ]),
            Column::Many(vec![
                Decoded::F64(0.92f64.to_bits()),
                Decoded::F64(0.87f64.to_bits()),
                Decoded::F64(0.95f64.to_bits()),
            ]),
            Column::Many(vec![Decoded::Bool(true), Decoded::Bool(false), Decoded::Bool(true)]),
            Column::One(Decoded::I64(42)),
        ]
    );
    assert_eq!(unpack_mixed(&bytes, &schema).unwrap(), cols);
}

#[test]
fn unpack_mixed_count_zero_is_empty_list() {
    let cols = unpack_mixed(&[], &[(s("u8"), 0)]).unwrap();
    assert_eq!(cols, vec![Column::Many(vec![])]);
}

#[test]
fn unpack_mixed_errors() {
    assert!(matches!(unpack_mixed(&[1, 2], &[(s("u8"), 3)]), Err(ShmError::InvalidArg(_))));
    assert!(matches!(unpack_mixed(&[1, 2], &[(s("x"), 0)]), Err(ShmError::InvalidArg(_))));
    assert!(matches!(unpack_mixed(&[9, 0, 0, 0, 1], &[(s("str"), 1)]), Err(ShmError::InvalidArg(_))));
}

#[test]
fn schema_byte_size_sums_fixed_widths() {
    let schema = vec![(s("f32"), 2), (s("i64"), 2), (s("bool"), 2)];
    assert_eq!(schema_byte_size(&schema).unwrap(), 26);
    assert_eq!(schema_byte_size(&[]).unwrap(), 0);
    assert_eq!(schema_byte_size(&[(s("u64"), 3), (s("u8"), 1)]).unwrap(), 25);
}

#[test]
fn schema_byte_size_errors() {
    assert!(matches!(schema_byte_size(&[(s("str"), 1)]), Err(ShmError::InvalidArg(_))));
    assert!(matches!(schema_byte_size(&[(s("u8"), 1), (s("what"), 1)]), Err(ShmError::InvalidArg(_))));
    assert_eq!(
        schema_byte_size(&[(s("u8"), 1), (s("what"), 1), (s("str"), 1)]).unwrap_err(),
        ShmError::InvalidArg(s("unknown type tag 'what'"))
    );
    assert_eq!(
        schema_byte_size(&[(s("str"), 1), (s("what"), 1)]).unwrap_err(),
        ShmError::InvalidArg(s(
            "schema_byte_size cannot compute size for 'str' (variable length);                  use read_range manually"
        ))
    );
}

#[test]
fn error_display_texts() {
    assert_eq!(ShmError::Os(s("x")).display(), "OS error: x");
    assert_eq!(ShmError::InvalidArg(s("y")).display(), "Invalid argument: y");
    assert_eq!(ShmError::Permission(s("z")).display(), "Permission denied: z");
}
