//! The path model against `std::path` on many generated paths.
use std::path::{Component, Path, PathBuf};

use repo2markdown::normalizer::normalize_lexically;
use repo2markdown::path_model::{absolutize, join, parse_components, PathComponent};
use repo2markdown::{NormalizeError, Normalizer};

struct Gen(u64);

impl Gen {
    fn next(&mut self) -> u64 {
        self.0 ^= self.0 << 13;
        self.0 ^= self.0 >> 7;
        self.0 ^= self.0 << 17;
        self.0
    }

    fn path(&mut self) -> String {
        let pieces = ["a", "b", "src", ".", "..", "", "x.rs", ".hidden", "..."];
        let mut s = String::new();
        if self.next() % 3 == 0 {
            s.push('/');
        }
        let n = self.next() % 6;
        for i in 0..n {
            if i > 0 {
                s.push('/');
            }
            s.push_str(pieces[(self.next() % pieces.len() as u64) as usize]);
        }
        if self.next() % 5 == 0 {
            s.push('/');
        }
        s
    }
}

fn std_components(p: &str) -> Vec<String> {
    Path::new(p)
        .components()
        .map(|c| match c {
            Component::RootDir => "/".to_string(),
            Component::CurDir => ".".to_string(),
            Component::ParentDir => "..".to_string(),
            Component::Normal(n) => format!("N:{}", n.to_str().unwrap()),
            Component::Prefix(_) => "prefix".to_string(),
        })
        .collect()
}

fn model_components(p: &str) -> Vec<String> {
    parse_components(p.as_bytes())
        .into_iter()
        .map(|c| match c {
            PathComponent::RootDir => "/".to_string(),
            PathComponent::CurDir => ".".to_string(),
            PathComponent::ParentDir => "..".to_string(),
            PathComponent::Normal(n) => format!("N:{}", String::from_utf8(n).unwrap()),
        })
        .collect()
}

fn text(bytes: Vec<u8>) -> String {
    String::from_utf8(bytes).unwrap()
}

#[derive(Debug, PartialEq)]
enum StdError {
    Empty,
    Outside,
}

fn std_absolutize(path: &Path, prefix: &Path) -> PathBuf {
    if path.is_absolute() {
        path.to_path_buf()
    } else {
        prefix.join(path)
    }
}

fn std_lexical(path: &Path) -> Result<PathBuf, StdError> {
    let mut lexical = PathBuf::new();
    let mut iter = path.components().peekable();
    let root = match iter.peek() {
        Some(Component::ParentDir) => return Err(StdError::Outside),
        Some(p @ Component::RootDir) | Some(p @ Component::CurDir) => {
            lexical.push(p);
            iter.next();
            lexical.as_os_str().len()
        }
        None => return Ok(PathBuf::new()),
        _ => 0,
    };
    for component in iter {
        match component {
            Component::CurDir => continue,
            Component::ParentDir => {
                if lexical.as_os_str().len() == root {
                    return Err(StdError::Outside);
                } else {
                    lexical.pop();
                }
            }
            Component::Normal(path) => lexical.push(path),
            _ => return Err(StdError::Outside),
        }
    }
    Ok(lexical)
}

fn std_relative(target: PathBuf, mut root: &Path) -> PathBuf {
    let mut prefix = PathBuf::new();
    loop {
        if let Ok(suffix) = target.strip_prefix(root) {
            return prefix.join(suffix);
        }
        if let Some(new_root) = root.parent() {
            prefix.push("..");
            root = new_root;
        } else {
            return target;
        }
    }
}

fn std_normalized(root: &str, origin: &str, cwd: &str, input: &str) -> Result<String, StdError> {
    let root = std_absolutize(Path::new(root), Path::new(cwd));
    let origin = std_absolutize(Path::new(origin), Path::new(cwd));
    if input.is_empty() {
        return Err(StdError::Empty);
    }
    let input = std_absolutize(Path::new(input), &origin);
    let normalized = std_lexical(&input)?;
    Ok(std_relative(normalized, &root).to_str().unwrap().to_string())
}

#[test]
fn components_agree_with_std() {
    let mut g = Gen(0x1234_5678_9abc_def1);
    for extra in ["", ".", "./", "./.", "//", "/.", "..", "a/.", "./a", ".//a", "a//b/", "/./a"] {
        assert_eq!(model_components(extra), std_components(extra), "path = {:?}", extra);
    }
    for _ in 0..5000 {
        let p = g.path();
        assert_eq!(model_components(&p), std_components(&p), "path = {:?}", p);
    }
}

#[test]
fn join_and_absolutize_agree_with_std() {
    let mut g = Gen(0x0fed_cba9_8765_4321);
    for _ in 0..3000 {
        let a = g.path();
        let b = g.path();
        let joined = Path::new(&a).join(&b);
        assert_eq!(text(join(a.as_bytes(), b.as_bytes())), joined.to_str().unwrap());
        let abs = std_absolutize(Path::new(&b), Path::new(&a));
        assert_eq!(text(absolutize(b.as_bytes(), a.as_bytes())), abs.to_str().unwrap());
    }
}

#[test]
fn lexical_normalization_agrees_with_std() {
    let mut g = Gen(0x5555_aaaa_1234_4321);
    for _ in 0..5000 {
        let p = g.path();
        let model = normalize_lexically(p.as_bytes()).map(|l| text(l.to_bytes()));
        let expected = std_lexical(Path::new(&p)).map(|b| b.to_str().unwrap().to_string());
        match (model, expected) {
            (Ok(m), Ok(e)) => assert_eq!(m, e, "path = {:?}", p),
            (Err(NormalizeError::InputOutsideFileSystemRoot), Err(StdError::Outside)) => {}
            (m, e) => panic!("path = {:?}: {:?} vs {:?}", p, m.map(|_| ()), e.map(|_| ())),
        }
    }
}

#[test]
fn normalization_agrees_with_std() {
    let mut g = Gen(0x7777_1111_2222_3333);
    let cwds = ["/sandbox", "/", "/a/b", "", "rel", "./dot"];
    for i in 0..20000 {
        let root = g.path();
        let origin = g.path();
        let input = g.path();
        let cwd = cwds[i % cwds.len()];
        let n = Normalizer::new_with_cwd(root.as_bytes(), origin.as_bytes(), cwd.as_bytes());
        let model = n.normalize_path(input.as_bytes());
        let expected = std_normalized(&root, &origin, cwd, &input);
        let case = format!("root {:?} origin {:?} cwd {:?} input {:?}", root, origin, cwd, input);
        match (model, expected) {
            (Ok(m), Ok(e)) => assert_eq!(text(m), e, "{}", case),
            (Err(NormalizeError::EmptyInput), Err(StdError::Empty)) => {}
            (Err(NormalizeError::InputOutsideFileSystemRoot), Err(StdError::Outside)) => {}
            (m, e) => panic!("{}: {:?} vs {:?}", case, m.map(|_| ()), e.map(|_| ())),
        }
    }
}
