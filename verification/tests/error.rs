use kage::KageError;
use std::io::{Error, ErrorKind};

#[test]
fn parse_error_message_has_location() {
    let e = KageError::parse("build.mold", 3, 14, "expected ';'".to_string());
    assert_eq!(e.message(), "build.mold:3:14: expected ';'");
}

#[test]
fn build_error_message_has_prefix() {
    let e = KageError::build("no targets to build".to_string());
    assert_eq!(e.message(), "mold: no targets to build");
}

#[test]
fn io_error_message_carries_the_system_text() {
    let e = KageError::io("out/a.o", Error::new(ErrorKind::Other, "disk full"));
    assert_eq!(e.message(), "mold: out/a.o: disk full");
    let e = KageError::io_unnamed(Error::new(ErrorKind::Other, "no cwd"));
    assert_eq!(e.message(), "mold: no cwd");
}
