use membridge::error::ShmError;
use membridge::mixed::{Column, Decoded, Item, Value};
use membridge::spsc::{is_power_of_two, Popped, SpscRingBuffer, SPSC_HEADER_SIZE};

fn s(x: &str) -> String {
    x.to_string()
}

fn ring(cap: usize) -> (SpscRingBuffer, Vec<u8>) {
    let r = SpscRingBuffer::new(cap + SPSC_HEADER_SIZE, true).unwrap().unwrap();
    (r, vec![0u8; cap])
}

fn raw(x: &[u8]) -> Item {
    Item::One(Value::Bytes(x.to_vec()))
}

#[test]
fn header_is_24_bytes() {
    assert_eq!(SPSC_HEADER_SIZE, 24);
}

#[test]
fn new_checks_sizes() {
    assert!(matches!(SpscRingBuffer::new(24, true), Err(ShmError::InvalidArg(_))));
    assert!(matches!(SpscRingBuffer::new(24, false), Err(ShmError::InvalidArg(_))));
    let e = SpscRingBuffer::new(24 + 1000, true).unwrap_err();
    assert_eq!(e, ShmError::InvalidArg(s("data capacity (1000) must be a power of two; try 512 or 1024")));
    assert!(SpscRingBuffer::new(24 + 1000, false).unwrap().is_none());
    let r = SpscRingBuffer::new(1024 + 24, true).unwrap().unwrap();
    assert_eq!(r.capacity(), 1024);
    assert_eq!(r.head_index(), 0);
    assert_eq!(r.tail_index(), 0);
    assert!(r.is_empty());
    assert_eq!(r.used(), 0);
    assert_eq!(r.free(), 1024);
}

#[test]
fn power_of_two_check() {
    assert!(!is_power_of_two(0));
    assert!(is_power_of_two(1));
    assert!(is_power_of_two(2));
    assert!(!is_power_of_two(3));
    assert!(is_power_of_two(1 << 40));
    assert!(!is_power_of_two(1000));
}

#[test]
fn from_header_checks() {
    assert!(SpscRingBuffer::from_header(0, 0, 16, 40).is_some());
    assert!(SpscRingBuffer::from_header(0, 0, 16, 39).is_none());
    assert!(SpscRingBuffer::from_header(0, 0, 12, 40).is_none());
    assert!(SpscRingBuffer::from_header(0, 0, 0, 40).is_none());
    assert!(SpscRingBuffer::from_header(0, 0, 1, 24).is_none());
    let r = SpscRingBuffer::from_header(3, 9, 16, 64).unwrap();
    assert_eq!(r.used(), 6);
}

#[test]
fn messages_come_out_in_order() {
    let (mut r, mut region) = ring(64);
    assert!(r.push(&mut region, &Item::One(Value::Str(s("msg-0")))).unwrap());
    assert!(r.push(&mut region, &raw(b"xyz")).unwrap());
    assert!(r.push(&mut region, &Item::One(Value::Str(s("__EOF__")))).unwrap());
    assert_eq!(r.used(), (4 + 9) + (4 + 3) + (4 + 11));
    assert_eq!(r.pop(&region, Some("str")).unwrap(), Some(Popped::Value(Decoded::Str(b"msg-0".to_vec()))));
    assert_eq!(r.pop(&region, None).unwrap(), Some(Popped::Raw(b"xyz".to_vec())));
    assert_eq!(r.pop(&region, Some("str")).unwrap(), Some(Popped::Value(Decoded::Str(b"__EOF__".to_vec()))));
    assert_eq!(r.pop(&region, None).unwrap(), None);
    assert!(r.is_empty());
}

#[test]
fn push_reports_back_pressure() {
    let (mut r, mut region) = ring(16);
    assert!(r.push(&mut region, &raw(&[1; 8])).unwrap());
    assert_eq!(r.used(), 12);
    assert_eq!(r.free(), 4);
    let before = region.clone();
    assert!(!r.push(&mut region, &raw(&[2; 1])).unwrap());
    assert_eq!(region, before);
    assert_eq!(r.tail_index(), 12);
    assert!(r.push(&mut region, &raw(&[])).unwrap());
    assert!(r.is_full());
    assert_eq!(r.free(), 0);
}

#[test]
fn push_rejects_oversized_and_unsupported() {
    let (mut r, mut region) = ring(16);
    let e = r.push(&mut region, &raw(&[0; 13])).unwrap_err();
    assert_eq!(e, ShmError::InvalidArg(s("message too large: frame_len=17 > capacity=16                  (map_size=40)")));
    assert!(matches!(r.push(&mut region, &Item::One(Value::Other(s("dict")))), Err(ShmError::InvalidArg(_))));
    assert!(r.is_empty());
    assert!(r.push(&mut region, &raw(&[0; 12])).unwrap());
}

#[test]
fn frames_wrap_around_the_data_area() {
    let (mut r, mut region) = ring(16);
    for round in 0u8..20 {
        let msg = vec![round; 7];
        assert!(r.push(&mut region, &raw(&msg)).unwrap());
        assert_eq!(r.pop(&region, None).unwrap(), Some(Popped::Raw(msg)));
    }
    assert_eq!(r.head_index(), 20 * 11);
    assert_eq!(r.tail_index(), 20 * 11);
}

#[test]
fn indices_wrap_around_the_word() {
    let start = usize::MAX - 5;
    let mut r = SpscRingBuffer::from_header(start, start, 16, 40).unwrap();
    let mut region = vec![0u8; 16];
    assert!(r.push(&mut region, &raw(b"abcdef")).unwrap());
    assert_eq!(r.tail_index(), 4);
    assert_eq!(r.used(), 10);
    assert_eq!(r.pop(&region, None).unwrap(), Some(Popped::Raw(b"abcdef".to_vec())));
    assert_eq!(r.head_index(), 4);
    assert!(r.is_empty());
}

#[test]
fn list_message_pops_as_columns() {
    let (mut r, mut region) = ring(64);
    let item = Item::List(vec![Value::Str(s("Normal")), Value::Float(0.92f64.to_bits()), Value::Bool(true)]);
    assert!(r.push(&mut region, &item).unwrap());
    let cols = r
        .pop_mixed(&region, &[(s("str"), 1), (s("float"), 1), (s("bool"), 1)])
        .unwrap()
        .unwrap();
    assert_eq!(
        cols,
        vec![
            Column::One(Decoded::Str(b"Normal".to_vec())),
            Column::One(Decoded::F64(0.92f64.to_bits())),
            Column::One(Decoded::Bool(true)),
        ]
    );
    assert_eq!(r.pop_mixed(&region, &[(s("u8"), 1)]).unwrap(), None);
}

#[test]
fn pop_consumes_even_when_reading_fails() {
    let (mut r, mut region) = ring(32);
    assert!(r.push(&mut region, &raw(&[1, 2])).unwrap());
    assert!(r.push(&mut region, &raw(&[3])).unwrap());
    assert!(matches!(r.pop(&region, Some("u64")), Err(ShmError::InvalidArg(_))));
    assert!(matches!(r.pop_mixed(&region, &[(s("nope"), 1)]), Err(ShmError::InvalidArg(_))));
    assert!(r.is_empty());
}

#[test]
fn pop_error_texts_name_the_message() {
    let (mut r, mut region) = ring(32);
    assert!(r.push(&mut region, &raw(&[1, 2])).unwrap());
    assert!(r.push(&mut region, &raw(&[3])).unwrap());
    assert_eq!(
        r.pop(&region, Some("u64")).unwrap_err(),
        ShmError::InvalidArg(s("not enough data to read 'u64': need 8, have 2"))
    );
    assert_eq!(
        r.pop_mixed(&region, &[(s("u8"), 2)]).unwrap_err(),
        ShmError::InvalidArg(s("out of bounds: cursor=1 + needed=1 > data_len=1"))
    );
}

#[test]
fn k_pushes_then_k_pops_keep_the_order_and_the_bounds() {
    let (mut r, mut region) = ring(64);
    let msgs: Vec<Vec<u8>> = (0u8..5).map(|i| vec![i; i as usize + 1]).collect();
    for m in &msgs {
        assert!(r.push(&mut region, &raw(m)).unwrap());
        assert!(r.used() <= r.capacity());
        assert_eq!(r.free() + r.used(), r.capacity());
    }
    for m in &msgs {
        assert_eq!(r.pop(&region, None).unwrap(), Some(Popped::Raw(m.clone())));
        assert!(r.used() <= r.capacity());
        assert_eq!(r.free() + r.used(), r.capacity());
    }
    assert_eq!(r.pop(&region, None).unwrap(), None);
    assert_eq!(r.used(), 0);
    assert_eq!(r.capacity(), 64);
}
