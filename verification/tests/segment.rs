use membridge::error::ShmError;
use membridge::platform::to_win32_name;
use membridge::shared_memory::{resolve_open_size, validate_name, SharedMemory};

#[test]
fn names_must_start_with_slash() {
    assert!(validate_name("/demo").is_ok());
    assert!(validate_name("/x").is_ok());
    assert!(validate_name("/é").is_ok());
    assert_eq!(
        validate_name("demo"),
        Err(ShmError::InvalidArg("name must start with '/' (e.g. \"/my_segment\")".to_string()))
    );
    assert!(matches!(validate_name(""), Err(ShmError::InvalidArg(_))));
    assert_eq!(
        validate_name("/"),
        Err(ShmError::InvalidArg("name must have at least one character after '/'".to_string()))
    );
}

#[test]
fn create_checks_size_then_name() {
    match SharedMemory::create("bad", 0) {
        Err(e) => assert_eq!(e, ShmError::InvalidArg("size must be > 0".to_string())),
        Ok(_) => panic!("a zero size was accepted"),
    }
    assert!(matches!(SharedMemory::create("bad", 10), Err(ShmError::InvalidArg(_))));
    let m = SharedMemory::create("/demo", 4096).unwrap();
    assert_eq!(m.name(), "/demo");
    assert_eq!(m.size(), 4096);
    assert!(m.is_creator());
}

#[test]
fn open_and_remove_check_names() {
    let m = SharedMemory::open("/demo", 100).unwrap();
    assert!(!m.is_creator());
    assert_eq!(m.size(), 100);
    assert!(matches!(SharedMemory::open("demo", 100), Err(ShmError::InvalidArg(_))));
    assert!(SharedMemory::remove("/demo").is_ok());
    assert!(matches!(SharedMemory::remove("/"), Err(ShmError::InvalidArg(_))));
}

#[test]
fn open_size_comes_from_the_os_or_the_caller() {
    assert_eq!(resolve_open_size(Some(5), Some(7)), Ok(7));
    assert_eq!(resolve_open_size(None, Some(7)), Ok(7));
    assert_eq!(resolve_open_size(Some(5), None), Ok(5));
    assert!(matches!(resolve_open_size(None, None), Err(ShmError::InvalidArg(_))));
}

#[test]
fn map_needs_room_beyond_lock() {
    assert!(matches!(SharedMemory::create("/m", 4).unwrap().map(), Err(ShmError::InvalidArg(_))));
    let (v, lock) = SharedMemory::create("/m", 4096).unwrap().map().unwrap();
    assert_eq!(v.size(), 4092);
    assert_eq!(v.tell(), 0);
    assert_eq!(lock.map(|l| l.word()), Some(0));
    let (_, lock) = SharedMemory::open("/m", 4096).unwrap().map().unwrap();
    assert!(lock.is_none());
}

#[test]
fn spsc_over_segment() {
    let m = SharedMemory::create("/spsc", 1024 + 24).unwrap();
    let r = m.spsc().unwrap().unwrap();
    assert_eq!(r.capacity(), 1024);
    let o = SharedMemory::open("/spsc", 1024 + 24).unwrap();
    assert!(o.spsc().unwrap().is_none());
    assert!(matches!(SharedMemory::create("/spsc", 1000).unwrap().spsc(), Err(ShmError::InvalidArg(_))));
}

#[test]
fn win32_names_drop_leading_slashes() {
    assert_eq!(to_win32_name("/my_segment"), "my_segment");
    assert_eq!(to_win32_name("//a/b"), "a/b");
    assert_eq!(to_win32_name("plain"), "plain");
    assert_eq!(to_win32_name("///"), "");
}
