use dotenv::errors::{Error, IoError, IoErrorKind, VarError};
use dotenv::find::{find, find_dotenv};
use std::path::PathBuf;

#[test]
fn not_found_is_not_found() {
    let err = Error::not_found();
    assert!(err.is_not_found());
    assert_eq!(err.message(), "path not found");
}

#[test]
fn other_errors_are_not_not_found() {
    let err = Error::Io(IoError::new(IoErrorKind::PermissionDenied, "denied".to_string()));
    assert!(!err.is_not_found());
    assert_eq!(err.message(), "denied");
    let err = Error::Env(VarError::NotPresent);
    assert!(!err.is_not_found());
    assert_eq!(err.message(), "environment variable not found");
    let err = Error::Env(VarError::NotUnicode("\"\\xFF\"".to_string()));
    assert_eq!(err.message(), "environment variable was not valid unicode: \"\\xFF\"");
}

#[test]
fn find_takes_nearest_ancestor() {
    let cwd = PathBuf::from("/a/b/c");
    let found = find(&cwd, &PathBuf::from(".env"), |p: &PathBuf| {
        p == &PathBuf::from("/a/b/.env") || p == &PathBuf::from("/a/.env")
    });
    assert_eq!(found.unwrap(), PathBuf::from("/a/b/.env"));
}

#[test]
fn find_checks_the_directory_itself_first() {
    let cwd = PathBuf::from("/a/b");
    let found = find_dotenv(&cwd, |_p: &PathBuf| true);
    assert_eq!(found.unwrap(), PathBuf::from("/a/b/.env"));
}

#[test]
fn find_reports_not_found() {
    let cwd = PathBuf::from("/a/b/c");
    let found = find(&cwd, &PathBuf::from("missing.env"), |_p: &PathBuf| false);
    assert!(found.unwrap_err().is_not_found());
}
