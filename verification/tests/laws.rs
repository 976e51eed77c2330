use repo2markdown::normalizer::normalize_lexically;
use repo2markdown::path_model::{absolutize, join};
use repo2markdown::{NormalizeError, Normalizer};

fn lexical_text(p: &[u8]) -> String {
    String::from_utf8(normalize_lexically(p).ok().unwrap().to_bytes()).unwrap()
}

#[test]
fn lexical_form_is_stable() {
    let once = lexical_text(b"/a/./b/../c//d/");
    assert_eq!(once, "/a/c/d");
    assert_eq!(lexical_text(once.as_bytes()), once);
    let dotted = lexical_text(b"./x/../y");
    assert_eq!(dotted, "./y");
    assert_eq!(lexical_text(dotted.as_bytes()), dotted);
}

#[test]
fn result_leads_back_to_input() {
    let root: &[u8] = b"/project";
    let origin: &[u8] = b"/outside/dir";
    let input: &[u8] = b"../x/./y.rs";
    let n = Normalizer::new_with_cwd(root, origin, b"/cwd");
    let out = n.normalize_path(input).ok().unwrap();
    assert_eq!(out, b"../outside/x/y.rs".to_vec());
    let back = lexical_text(&join(root, &out));
    let direct = lexical_text(&absolutize(input, origin));
    assert_eq!(back, direct);
    assert_eq!(back, "/outside/x/y.rs");
}

#[test]
fn normalizing_again_changes_nothing() {
    let n = Normalizer::new_with_cwd(b"/p/q", b"/p/r/s", b"/");
    let out = n.normalize_path(b"../t/u").ok().unwrap();
    assert_eq!(out, b"../r/t/u".to_vec());
    let again = Normalizer::new_with_cwd(b"/p/q", b"/p/q", b"/");
    assert_eq!(again.normalize_path(&out).ok().unwrap(), out);
}

#[test]
fn the_root_itself_comes_out_empty() {
    let n = Normalizer::new_with_cwd(b"/p", b"/p", b"/");
    let out = n.normalize_path(b".").ok().unwrap();
    assert_eq!(out, Vec::<u8>::new());
    assert!(matches!(n.normalize_path(&out), Err(NormalizeError::EmptyInput)));
}

#[test]
fn inside_root_needs_no_parent_steps() {
    let n = Normalizer::new_with_cwd(b"/p", b"/elsewhere", b"/");
    assert_eq!(n.normalize_path(b"/p/a/b").ok().unwrap(), b"a/b".to_vec());
}

#[test]
fn ancestor_of_root_ends_with_a_separator() {
    let n = Normalizer::new_with_cwd(b"/a/b", b"/", b"/");
    assert_eq!(n.normalize_path(b"/a").ok().unwrap(), b"../".to_vec());
    assert_eq!(n.normalize_path(b"/").ok().unwrap(), b"../../".to_vec());
}

#[test]
fn root_with_parent_steps_is_climbed_component_by_component() {
    let n = Normalizer::new_with_cwd(b"/a/../b", b"/b", b"/");
    assert_eq!(n.normalize_path(b"x").ok().unwrap(), b"../../../b/x".to_vec());
}

#[test]
fn relative_directories_stay_relative() {
    let n = Normalizer::new_with_cwd(b"", b".", b"");
    assert_eq!(n.normalize_path(b"a/b").ok().unwrap(), b"./a/b".to_vec());
    let m = Normalizer::new_with_cwd(b"top", b"top/sub", b"");
    assert_eq!(m.normalize_path(b"../f").ok().unwrap(), b"f".to_vec());
    assert!(matches!(
        m.normalize_path(b"../../../f"),
        Err(NormalizeError::InputOutsideFileSystemRoot)
    ));
}

#[test]
fn parent_step_first_is_refused() {
    let n = Normalizer::new_with_cwd(b"", b"", b"");
    assert!(matches!(
        n.normalize_path(b"../x"),
        Err(NormalizeError::InputOutsideFileSystemRoot)
    ));
}

#[test]
fn relative_path_is_parent_steps_then_names() {
    let n = Normalizer::new_with_cwd(b"/r/s/t", b"/", b"/");
    let out = n.normalize_path(b"/r/x/y").ok().unwrap();
    assert_eq!(out, b"../../x/y".to_vec());
    assert_eq!(lexical_text(&join(b"/r/s/t", &out)), "/r/x/y");
}
