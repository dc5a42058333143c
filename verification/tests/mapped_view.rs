use membridge::error::ShmError;
use membridge::mapped_view::MappedView;
use membridge::mixed::{Column, Decoded, Item, Value};
use membridge::rwlock::ShmRwLock;

fn s(x: &str) -> String {
    x.to_string()
}

fn view(total: usize) -> (MappedView, Vec<u8>) {
    let (v, _) = MappedView::new(total, false).unwrap();
    let data = vec![0u8; total - 4];
    (v, data)
}

#[test]
fn new_needs_room_beyond_header() {
    assert_eq!(
        MappedView::new(4, true).unwrap_err(),
        ShmError::InvalidArg(s("segment size must be > 4 bytes (rwlock header)"))
    );
    assert!(matches!(MappedView::new(0, false), Err(ShmError::InvalidArg(_))));
    let (v, lock) = MappedView::new(5, false).unwrap();
    assert_eq!(v.size(), 1);
    assert_eq!(v.tell(), 0);
    assert!(lock.is_none());
}

#[test]
fn creator_gets_a_free_lock_word() {
    let (v, lock) = MappedView::new(64, true).unwrap();
    assert_eq!(v.size(), 60);
    let lock: ShmRwLock = lock.unwrap();
    assert_eq!(lock.word(), 0);
    assert_eq!(lock.reader_count(), 0);
    assert!(!lock.is_write_locked());
}

#[test]
fn write_at_offset_then_read_range() {
    let (mut v, mut data) = view(20);
    v.write(&mut data, &Value::Bytes(b"hello".to_vec()), Some(3)).unwrap();
    assert_eq!(v.tell(), 0);
    assert_eq!(v.read_range(&data, 3, 5).unwrap(), b"hello".to_vec());
    assert_eq!(v.read_range(&data, 0, 3).unwrap(), vec![0, 0, 0]);
}

#[test]
fn write_at_cursor_advances() {
    let (mut v, mut data) = view(4 + 64);
    v.write(&mut data, &Value::Str(s("Hello from A!")), None).unwrap();
    assert_eq!(v.tell(), 17);
    v.write(&mut data, &Value::Int(42), None).unwrap();
    v.write(&mut data, &Value::Float(3.14f64.to_bits()), None).unwrap();
    v.write(&mut data, &Value::Bool(true), None).unwrap();
    assert_eq!(v.tell(), 17 + 8 + 8 + 1);
    v.seek(0).unwrap();
    assert_eq!(v.read(&data, "str").unwrap(), Decoded::Str(b"Hello from A!".to_vec()));
    assert_eq!(v.read(&data, "int").unwrap(), Decoded::I64(42));
    assert_eq!(v.read(&data, "float").unwrap(), Decoded::F64(3.14f64.to_bits()));
    assert_eq!(v.read(&data, "bool").unwrap(), Decoded::Bool(true));
    assert_eq!(v.tell(), 34);
}

#[test]
fn write_errors_leave_data_and_cursor() {
    let (mut v, mut data) = view(4 + 8);
    v.write(&mut data, &Value::Bool(true), None).unwrap();
    let before = data.clone();
    assert!(matches!(v.write(&mut data, &Value::Int(1), None), Err(ShmError::InvalidArg(_))));
    assert!(matches!(v.write(&mut data, &Value::Bytes(vec![]), Some(9)), Err(ShmError::InvalidArg(_))));
    assert!(matches!(v.write(&mut data, &Value::Other(s("set")), Some(0)), Err(ShmError::InvalidArg(_))));
    assert!(matches!(v.write(&mut data, &Value::Bool(true), Some(8)), Err(ShmError::InvalidArg(_))));
    assert!(matches!(v.write(&mut data, &Value::Bool(true), Some(usize::MAX)), Err(ShmError::InvalidArg(_))));
    assert_eq!(data, before);
    assert_eq!(v.tell(), 1);
    v.write(&mut data, &Value::Bool(true), Some(7)).unwrap();
    assert_eq!(data[7], 1);
}

#[test]
fn read_range_bounds() {
    let (v, data) = view(4 + 10);
    assert!(matches!(v.read_range(&data, 0, 0), Err(ShmError::InvalidArg(_))));
    assert!(matches!(v.read_range(&data, 5, 6), Err(ShmError::InvalidArg(_))));
    assert!(matches!(v.read_range(&data, usize::MAX, 2), Err(ShmError::InvalidArg(_))));
    assert_eq!(v.read_range(&data, 0, 10).unwrap().len(), 10);
}

#[test]
fn seek_and_tell() {
    let (mut v, _data) = view(4 + 10);
    v.seek(10).unwrap();
    assert_eq!(v.tell(), 10);
    let e = v.seek(11).unwrap_err();
    assert_eq!(e, ShmError::InvalidArg(s("seek position 11 exceeds data_size 10")));
    assert_eq!(v.tell(), 10);
}

#[test]
fn read_errors_keep_cursor() {
    let (mut v, data) = view(4 + 6);
    v.seek(0).unwrap();
    assert!(matches!(v.read(&data, "int"), Err(ShmError::InvalidArg(_))));
    assert!(matches!(v.read(&data, "str16"), Err(ShmError::InvalidArg(_))));
    assert_eq!(v.tell(), 0);
    v.seek(6).unwrap();
    assert!(matches!(v.read(&data, "u8"), Err(ShmError::InvalidArg(_))));
}

#[test]
fn write_mixed_then_read_mixed() {
    let (mut v, mut data) = view(4 + 128);
    let items = vec![
        Item::List(vec![Value::Str(s("Hello")), Value::Str(s("from")), Value::Str(s("producer"))]),
        Item::List(vec![
            Value::Float(0.92f64.to_bits()),
            Value::Float(0.87f64.to_bits()),
            Value::Float(0.95f64.to_bits()),
        ]),
        Item::List(vec![Value::Bool(true), Value::Bool(false), Value::Bool(true)]),
    ];
    v.write_mixed(&mut data, &items, None).unwrap();
    let written = v.tell();
    assert_eq!(written, 9 + 8 + 12 + 24 + 3);
    let schema = vec![(s("str"), 3), (s("float"), 3), (s("bool"), 3)];
    let cols = v.read_mixed(&data, &schema, Some(0)).unwrap();
    assert_eq!(v.tell(), written);
    assert_eq!(cols[2], Column::Many(vec![Decoded::Bool(true), Decoded::Bool(false), Decoded::Bool(true)]));
    assert_eq!(cols[0], Column::Many(vec![
        Decoded::Str(b"Hello".to_vec()),
        Decoded::Str(b"from".to_vec()),
        Decoded::Str(b"producer".to_vec()),
    ]));
    v.seek(0).unwrap();
    let again = v.read_mixed(&data, &schema, None).unwrap();
    assert_eq!(again, cols);
    assert_eq!(v.tell(), written);
}

#[test]
fn read_mixed_errors() {
    let (mut v, data) = view(4 + 8);
    assert!(matches!(v.read_mixed(&data, &[(s("u8"), 1)], Some(8)), Err(ShmError::InvalidArg(_))));
    assert!(matches!(v.read_mixed(&data, &[(s("u8"), 1)], Some(100)), Err(ShmError::InvalidArg(_))));
    assert!(matches!(v.read_mixed(&data, &[(s("u64"), 2)], None), Err(ShmError::InvalidArg(_))));
    assert_eq!(v.tell(), 0);
    assert_eq!(v.read_mixed(&data, &[(s("u8"), 1)], Some(7)).unwrap(), vec![Column::One(Decoded::U8(0))]);
}

#[test]
fn zero_clears_data_area() {
    let (mut v, mut data) = view(4 + 8);
    v.write(&mut data, &Value::Int(-1), Some(0)).unwrap();
    v.zero(&mut data);
    assert_eq!(v.read_all(&data), vec![0u8; 8]);
}

#[test]
fn read_all_returns_data_area() {
    let (mut v, mut data) = view(4 + 3);
    v.write(&mut data, &Value::Bytes(vec![1, 2, 3]), None).unwrap();
    assert_eq!(v.read_all(&data), vec![1, 2, 3]);
    assert_eq!(v.size(), 3);
}

#[test]
fn empty_write_inside_the_data_area_writes_nothing() {
    let (mut v, mut data) = view(4 + 8);
    v.write(&mut data, &Value::Bool(true), None).unwrap();
    let before = data.clone();
    v.write(&mut data, &Value::Bytes(vec![]), Some(0)).unwrap();
    v.write(&mut data, &Value::Bytes(vec![]), Some(8)).unwrap();
    v.write(&mut data, &Value::Bytes(vec![]), None).unwrap();
    assert_eq!(data, before);
    assert_eq!(v.tell(), 1);
    assert_eq!(
        v.write(&mut data, &Value::Bytes(vec![]), Some(9)).unwrap_err(),
        ShmError::InvalidArg(s("out of bounds: offset=9 + length=0 > data_size=8"))
    );
}

#[test]
fn bounds_error_texts() {
    let (mut v, mut data) = view(4 + 8);
    assert_eq!(v.read_range(&data, 0, 0).unwrap_err(), ShmError::InvalidArg(s("length cannot be zero")));
    assert_eq!(
        v.read_range(&data, 5, 6).unwrap_err(),
        ShmError::InvalidArg(s("out of bounds: offset=5 + length=6 > data_size=8"))
    );
    assert_eq!(
        v.write(&mut data, &Value::Int(1), Some(4)).unwrap_err(),
        ShmError::InvalidArg(s("out of bounds: offset=4 + length=8 > data_size=8"))
    );
    assert_eq!(
        v.write(&mut data, &Value::Other(s("dict")), None).unwrap_err(),
        ShmError::InvalidArg(s("unsupported type 'dict'; supported: bool, int, float, str, bytes, bytearray"))
    );
    assert_eq!(
        v.write_mixed(&mut data, &[], None).unwrap_err(),
        ShmError::InvalidArg(s("length cannot be zero"))
    );
}

#[test]
fn read_error_texts() {
    let (mut v, data) = view(4 + 6);
    assert_eq!(
        v.read(&data, "int").unwrap_err(),
        ShmError::InvalidArg(s("not enough data to read 'int': need 8, have 6"))
    );
    assert_eq!(
        v.read_mixed(&data, &[(s("u8"), 1)], Some(6)).unwrap_err(),
        ShmError::InvalidArg(s("read_mixed: no data available at current cursor position"))
    );
    assert_eq!(
        v.read_mixed(&data, &[(s("u32"), 2)], Some(0)).unwrap_err(),
        ShmError::InvalidArg(s("out of bounds: cursor=4 + needed=4 > data_len=6"))
    );
    assert_eq!(
        v.read_mixed(&data, &[(s("bool"), 1), (s("text"), 1)], None).unwrap_err(),
        ShmError::InvalidArg(s(
            "unknown type tag 'text'; supported: bool, int, float, f32, f64, i32, i64, u8, u32, u64, str"
        ))
    );
}

#[test]
fn string_reads_back_as_text() {
    let (mut v, mut data) = view(4 + 32);
    v.write(&mut data, &Value::Str(s("grüße")), None).unwrap();
    v.seek(0).unwrap();
    let d = v.read(&data, "str").unwrap();
    assert_eq!(d.text(), Some(s("grüße")));
    assert_eq!(Decoded::Str(vec![b'a', 0xff, b'b']).text(), Some(s("a\u{fffd}b")));
    assert_eq!(Decoded::U8(7).text(), None);
}
