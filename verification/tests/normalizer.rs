use repo2markdown::{NormalizeError, Normalizer};

fn bytes(s: &str) -> Vec<u8> {
    s.as_bytes().to_vec()
}

#[test]
fn empty_path_returns_error() {
    let fake_cwd = b"/sandbox";
    let normalizer = Normalizer::new_with_cwd(b"", b"", fake_cwd);
    let result = normalizer.normalize_path(b"");
    assert!(matches!(result, Err(NormalizeError::EmptyInput)));
}

#[test]
fn plain_filename_with_root_at_cwd_returns_filename() {
    let fake_cwd = b"/sandbox";
    let normalizer = Normalizer::new_with_cwd(b"", b"", fake_cwd);
    let result = normalizer.normalize_path(b"main.rs");
    assert!(result.is_ok());
    assert_eq!(result.unwrap(), bytes("main.rs"));
}

#[test]
fn relative_path_from_origin_is_resolved() {
    let fake_cwd = b"/sandbox";
    let root = b"";
    let origin_dir = b"src";
    let normalizer = Normalizer::new_with_cwd(root, origin_dir, fake_cwd);
    let result = normalizer.normalize_path(b"../main.rs");
    assert!(result.is_ok());
    assert_eq!(result.unwrap(), bytes("main.rs"));
}

#[test]
fn path_is_made_relative_to_root() {
    let fake_cwd = b"/sandbox";
    let root = b"/project";
    let origin_dir = b"/project/src";
    let normalizer = Normalizer::new_with_cwd(root, origin_dir, fake_cwd);
    let result = normalizer.normalize_path(b"main.rs");
    assert!(result.is_ok());
    assert_eq!(result.unwrap(), bytes("src/main.rs"));
}

#[test]
fn path_is_made_relative_to_root_from_outside() {
    let fake_cwd = b"/sandbox";
    let root = b"/project";
    let origin_dir = b"/outside";
    let normalizer = Normalizer::new_with_cwd(root, origin_dir, fake_cwd);
    let result = normalizer.normalize_path(b"main.rs");
    assert!(result.is_ok());
    assert_eq!(result.unwrap(), bytes("../outside/main.rs"));
}

#[test]
fn path_is_made_relative_to_root_even_if_root_dir_is_relative() {
    let fake_cwd = b"/sandbox";
    let root = b"project";
    let origin_dir = b"/sandbox/outside";
    let normalizer = Normalizer::new_with_cwd(root, origin_dir, fake_cwd);
    let result = normalizer.normalize_path(b"main.rs");
    assert!(result.is_ok());
    assert_eq!(result.unwrap(), bytes("../outside/main.rs"));
}

#[test]
fn absolute_inputs_work() {
    let fake_cwd = b"/sandbox";
    let root = b"project";
    let origin_dir = b"/sandbox/outside";
    let normalizer = Normalizer::new_with_cwd(root, origin_dir, fake_cwd);
    let result = normalizer.normalize_path(b"/sandbox/main.rs");
    assert!(result.is_ok());
    assert_eq!(result.unwrap(), bytes("../main.rs"));
}

#[test]
fn path_is_made_relative_to_root_even_if_origin_dir_is_relative() {
    let fake_cwd = b"/sandbox";
    let root = b"/sandbox/project";
    let origin_dir = b"outside";
    let normalizer = Normalizer::new_with_cwd(root, origin_dir, fake_cwd);
    let result = normalizer.normalize_path(b"main.rs");
    assert!(result.is_ok());
    assert_eq!(result.unwrap(), bytes("../outside/main.rs"));
}

#[test]
fn input_cannot_go_above_root() {
    let fake_cwd = b"/sandbox";
    let root = b"project";
    let origin_dir = b"outside";
    let normalizer = Normalizer::new_with_cwd(root, origin_dir, fake_cwd);
    let result = normalizer.normalize_path(b"../../../main.rs");
    assert!(matches!(result, Err(NormalizeError::InputOutsideFileSystemRoot)));
}
