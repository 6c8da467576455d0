use rollup_host::path::{
    is_allowed_step_byte, validate_path, OwnedPath, Path, PathError, RefPath, PATH_MAX_SIZE,
    PATH_SEPARATOR,
};

#[test]
fn from_slice_path_cannot_be_empty() {
    let empty: Vec<u8> = vec![];
    let result = OwnedPath::try_from(empty);

    assert_eq!(Err(PathError::PathEmpty), result.map(|_| ()));
}

#[test]
fn from_slice_path_err_on_sep_not_first_byte() {
    for v in u8::MIN..=u8::MAX {
        match v {
            PATH_SEPARATOR => continue,
            v => {
                let path = vec![v, b'r', b'e', b's', b't'];
                let result = OwnedPath::try_from(path);

                assert_eq!(Err(PathError::InvalidStart), result.map(|_| ()));
            }
        }
    }
}

#[test]
fn from_slice_path_err_on_sep_last_byte() {
    let path: Vec<u8> = vec![PATH_SEPARATOR, b'p', b'a', b't', b'h', PATH_SEPARATOR];
    let result = OwnedPath::try_from(path);

    assert_eq!(Err(PathError::InvalidEmptyStep), result.map(|_| ()));
}

#[test]
fn from_slice_err_on_duplicate_separator() {
    let path = "/this/path/is/completely/fine/except/for/the//in/the/middle/of/it";
    let result = RefPath::try_from(path.as_bytes());

    assert_eq!(Err(PathError::InvalidEmptyStep), result.map(|_| ()));
}

#[test]
fn from_slice_too_long() {
    let bytes = [b'i'; PATH_MAX_SIZE - 1];

    let mut path = vec![PATH_SEPARATOR];
    path.extend_from_slice(&bytes);

    let result = RefPath::try_from(path.as_slice());
    assert!(result.is_ok());

    path.extend_from_slice(&bytes[0..1]);

    let result = RefPath::try_from(path.as_slice());
    assert_eq!(Err(PathError::PathTooLong), result.map(|_| ()));
}

#[test]
fn from_slice_ok() {
    let path = "/Th1s/PATH/1s/absolut3Ly/f1ne/and/sh0u.ld/.../work";
    let result = RefPath::try_from(path.as_bytes());

    assert!(result.is_ok());
    assert_eq!(path.as_bytes(), result.unwrap().as_bytes());
}

#[test]
fn store_path_get_len_steps() {
    let path = "/this/path/is/absolutely/fine/and/should.must/work";
    let result = RefPath::try_from(path.as_bytes()).unwrap();

    assert_eq!(8, result.len_steps());
}

#[test]
fn validate_accepts_and_rejects() {
    assert_eq!(Ok(()), validate_path(b"/a"));
    assert_eq!(Ok(()), validate_path(b"/a/b.c/D9"));
    assert_eq!(Err(PathError::PathEmpty), validate_path(b""));
    assert_eq!(Err(PathError::InvalidStart), validate_path(b"a/b"));
    assert_eq!(Err(PathError::InvalidEmptyStep), validate_path(b"/a//b"));
    assert_eq!(Err(PathError::InvalidEmptyStep), validate_path(b"/a/"));
    assert_eq!(Err(PathError::InvalidByteInStep), validate_path(b"/a/b!c"));
}

#[test]
fn step_bytes_are_alphanumeric_or_dot() {
    assert!(is_allowed_step_byte(b'a'));
    assert!(is_allowed_step_byte(b'Z'));
    assert!(is_allowed_step_byte(b'0'));
    assert!(is_allowed_step_byte(b'.'));
    assert!(!is_allowed_step_byte(b'/'));
    assert!(!is_allowed_step_byte(b'!'));
}

#[test]
fn owned_and_ref_paths_share_bytes() {
    let owned = OwnedPath::try_from(b"/a/b".to_vec()).unwrap();
    let view = owned.as_ref_path();
    assert_eq!(owned.as_bytes(), view.as_bytes());
    assert_eq!(2, owned.len_steps());
    assert_eq!(4, owned.size());
    let copied = view.to_owned_path();
    assert_eq!(copied.as_bytes(), owned.as_bytes());
}
