use path_jail::error::path_has_parent;
use path_jail::JailError;
use std::io;

#[test]
fn message_of_an_escape() {
    let error = JailError::EscapedRoot {
        attempted: "../secret".to_string(),
        root: "/var/uploads".to_string(),
    };
    assert_eq!(error.message(), "path '../secret' escapes jail root '/var/uploads'");
}

#[test]
fn message_of_a_broken_symlink() {
    let error = JailError::BrokenSymlink("/var/uploads/dead".to_string());
    assert_eq!(
        error.message(),
        "broken symlink at '/var/uploads/dead' (cannot verify target)"
    );
}

#[test]
fn message_of_an_invalid_path() {
    let error = JailError::InvalidPath("null bytes not allowed".to_string());
    assert_eq!(error.message(), "invalid path: null bytes not allowed");
}

#[test]
fn message_of_an_invalid_root() {
    let top = JailError::InvalidRoot("/".to_string());
    assert_eq!(top.message(), "invalid jail root '/' (cannot use filesystem root)");
    assert_eq!(top.render(true, ""), "invalid jail root '/' (cannot use filesystem root)");

    let file = JailError::InvalidRoot("/etc/passwd".to_string());
    assert_eq!(file.render(false, ""), "invalid jail root '/etc/passwd' (not a directory)");
    assert_eq!(file.render(true, ""), "invalid jail root '/etc/passwd' (invalid)");

    let missing = JailError::InvalidRoot("/no/such/place/at/all".to_string());
    assert_eq!(
        missing.message(),
        "invalid jail root '/no/such/place/at/all' (not a directory)"
    );
}

#[test]
fn message_of_an_io_error() {
    let cause = io::Error::new(io::ErrorKind::Other, "disk on fire");
    let error = JailError::Io(cause);
    assert_eq!(error.message(), "io error: disk on fire");
    assert_eq!(error.render(false, "anything"), "io error: anything");
}

#[test]
fn io_errors_convert() {
    let cause = io::Error::new(io::ErrorKind::NotFound, "gone");
    let error = JailError::from(cause);
    match error {
        JailError::Io(inner) => assert_eq!(inner.kind(), io::ErrorKind::NotFound),
        other => panic!("expected Io, got {:?}", other),
    }
}

#[test]
fn which_paths_have_a_parent() {
    assert!(!path_has_parent("/"));
    assert!(!path_has_parent(""));
    assert!(!path_has_parent("//"));
    assert!(!path_has_parent("/."));
    assert!(path_has_parent("/tmp"));
    assert!(path_has_parent("a"));
    assert!(path_has_parent("."));
    assert!(path_has_parent("/.."));
}
