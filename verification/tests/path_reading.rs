use std::path::{Path, PathBuf};
use tidy_json::files::{has_allowed_extension, Extension};
use tidy_json::paths::{dotted_path, extension_range, relative_path};

/// Every text of up to `longest` pieces out of `pieces`.
fn texts(pieces: &[&str], longest: usize) -> Vec<String> {
    let mut all = vec![String::new()];
    let mut last = all.clone();
    for _ in 0..longest {
        let mut next = Vec::new();
        for text in &last {
            for piece in pieces {
                next.push(format!("{}{}", text, piece));
            }
        }
        all.extend(next.iter().cloned());
        last = next;
    }
    all
}

fn std_relative(path: &str) -> &Path {
    let path = Path::new(path);
    path.strip_prefix(".").unwrap_or(path)
}

#[test]
fn relative_form_is_read_as_std_reads_it() {
    for path in texts(&[".", "/", "a"], 7) {
        assert_eq!(Some(relative_path(&path)), std_relative(&path).to_str(), "{:?}", path);
    }
}

#[test]
fn dotted_form_is_joined_as_std_joins_it() {
    for path in texts(&[".", "/", "a"], 7) {
        let joined = PathBuf::from(".").join(std_relative(&path));
        assert_eq!(Some(dotted_path(&path).as_str()), joined.to_str(), "{:?}", path);
    }
}

#[test]
fn extension_is_read_as_std_reads_it() {
    for path in texts(&[".", "/", "a"], 7) {
        let chars: Vec<char> = path.chars().collect();
        let found: Option<String> =
            extension_range(&chars).map(|(start, end)| chars[start..end].iter().collect());
        let expected = Path::new(&path).extension().and_then(|e| e.to_str()).map(String::from);
        assert_eq!(found, expected, "{:?}", path);
    }
}

#[test]
fn allowed_extension_is_read_as_std_reads_it() {
    let allowed = vec![Extension::Json];
    for path in texts(&[".", "/", "a", "json", "é"], 5) {
        let expected =
            Path::new(&path).extension().and_then(|e| e.to_str()).map_or(false, |e| e == "json");
        assert_eq!(has_allowed_extension(&path, &allowed), expected, "{:?}", path);
    }
}

#[test]
fn path_that_ends_in_a_separator_keeps_its_extension() {
    let allowed = vec![Extension::Json];
    assert!(has_allowed_extension("x.json/", &allowed));
    assert!(has_allowed_extension("x.json/.", &allowed));
    assert!(has_allowed_extension("x.json//./", &allowed));
    assert!(has_allowed_extension("dir/x.json/", &allowed));
    assert!(!has_allowed_extension("x.json/..", &allowed));
    assert!(!has_allowed_extension("x.json/a", &allowed));
    assert!(!has_allowed_extension("..", &allowed));
    assert!(!has_allowed_extension("/", &allowed));
    assert!(!has_allowed_extension(".", &allowed));
}
