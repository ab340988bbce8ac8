use collection_core::result_ops::{
    custom_error_demo, read_function, read_function_2, unwrap_or, DisplayableError, IoError,
    IoErrorKind, MyCustomError,
};
use std::cell::Cell;

fn not_found() -> IoError {
    IoError { kind: IoErrorKind::NotFound, detail: String::from("No such file or directory") }
}

fn denied() -> IoError {
    IoError { kind: IoErrorKind::PermissionDenied, detail: String::from("Permission denied") }
}

fn broken() -> IoError {
    IoError { kind: IoErrorKind::Other, detail: String::from("stream did not contain valid UTF-8") }
}

#[test]
fn custom_error_demo_fails_on_true() {
    assert_eq!(custom_error_demo(true), Err(MyCustomError));
}

#[test]
fn custom_error_demo_succeeds_on_false() {
    assert_eq!(custom_error_demo(false), Ok(()));
}

#[test]
fn custom_error_has_its_fixed_message() {
    match custom_error_demo(true) {
        Err(e) => assert_eq!(e.message(), "Something went wrong in custom operation!"),
        Ok(()) => panic!("expected a failure"),
    }
}

#[test]
fn io_error_message_is_its_detail() {
    assert_eq!(not_found().message(), "No such file or directory");
    assert_eq!(denied().message(), "Permission denied");
}

#[test]
fn unwrap_or_of_none_is_the_fallback() {
    let username: Option<i32> = None;
    assert_eq!(unwrap_or(username, 25), 25);
}

#[test]
fn unwrap_or_of_some_is_the_value() {
    assert_eq!(unwrap_or(Some(5), 25), 5);
    assert_eq!(unwrap_or(Some(25), 5), 25);
    assert_eq!(unwrap_or(Some(String::from("in")), String::from("out")), "in");
}

#[test]
fn read_function_returns_the_contents() {
    let result = read_function(Ok(3u8), |handle| Ok(format!("contents {}", handle)));
    assert_eq!(result, Ok(String::from("contents 3")));
}

#[test]
fn read_function_2_returns_the_contents() {
    let result = read_function_2(Ok(3u8), |handle| Ok(format!("contents {}", handle)));
    assert_eq!(result, Ok(String::from("contents 3")));
}

#[test]
fn read_function_returns_the_failure_to_open_without_reading() {
    let reads = Cell::new(0);
    let result = read_function(Err::<u8, IoError>(not_found()), |_| {
        reads.set(reads.get() + 1);
        Ok(String::from("never"))
    });
    assert_eq!(result, Err(not_found()));
    assert_eq!(reads.get(), 0);
}

#[test]
fn read_function_2_returns_the_failure_to_open_without_reading() {
    let reads = Cell::new(0);
    let result = read_function_2(Err::<u8, IoError>(not_found()), |_| {
        reads.set(reads.get() + 1);
        Ok(String::from("never"))
    });
    assert_eq!(result, Err(not_found()));
    assert_eq!(reads.get(), 0);
}

#[test]
fn read_function_returns_the_failure_to_read() {
    let result = read_function(Ok(()), |_| Err(broken()));
    assert_eq!(result, Err(broken()));
}

#[test]
fn read_function_2_returns_the_failure_to_read() {
    let result = read_function_2(Ok(()), |_| Err(broken()));
    assert_eq!(result, Err(broken()));
}

#[test]
fn both_ways_of_reading_classify_a_missing_file_alike() {
    let first = read_function(Err::<(), IoError>(not_found()), |_| Ok(String::new()));
    let second = read_function_2(Err::<(), IoError>(not_found()), |_| Ok(String::new()));
    assert_eq!(first, second);
    match (first, second) {
        (Err(a), Err(b)) => {
            assert_eq!(a.kind, IoErrorKind::NotFound);
            assert_eq!(b.kind, IoErrorKind::NotFound);
            assert_eq!(a.message(), b.message());
        }
        _ => panic!("expected two failures"),
    }
}

#[test]
fn both_ways_of_reading_agree_on_every_outcome() {
    let opened: Vec<fn() -> Result<u8, IoError>> =
        vec![|| Ok(1), || Err(not_found()), || Err(denied())];
    let readers: Vec<fn(u8) -> Result<String, IoError>> =
        vec![|h| Ok(format!("file {}", h)), |_| Err(broken())];
    for open in &opened {
        for read in &readers {
            assert_eq!(read_function(open(), *read), read_function_2(open(), *read));
        }
    }
}
