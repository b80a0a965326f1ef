use std::path::{Path, PathBuf};

use brightctl::path::{components_of, ends_with, file_name, is_absolute, join, parent};

/// Every text of at most `max_len` characters over `alphabet`.
fn texts(alphabet: &[char], max_len: usize) -> Vec<String> {
    let mut all = vec![String::new()];
    let mut last = vec![String::new()];
    for _ in 0..max_len {
        let mut next = Vec::new();
        for text in &last {
            for c in alphabet {
                let mut longer = text.clone();
                longer.push(*c);
                next.push(longer);
            }
        }
        all.extend(next.iter().cloned());
        last = next;
    }
    all
}

fn std_file_name(path: &str) -> Option<String> {
    Path::new(path).file_name().map(|name| name.to_string_lossy().into_owned())
}

fn std_parent(path: &str) -> Option<String> {
    Path::new(path).parent().map(|dir| dir.to_string_lossy().into_owned())
}

#[test]
fn file_name_of_plain_paths() {
    assert_eq!(file_name("/sys/class/backlight/intel_backlight"), Some("intel_backlight".to_string()));
    assert_eq!(file_name("/sys/class/leds/platform::fnlock"), Some("platform::fnlock".to_string()));
    assert_eq!(file_name("name"), Some("name".to_string()));
    assert_eq!(file_name("dir/name/"), Some("name".to_string()));
    assert_eq!(file_name("dir//name//"), Some("name".to_string()));
    assert_eq!(file_name("dir/name/."), Some("name".to_string()));
    assert_eq!(file_name("dir/.name"), Some(".name".to_string()));
    assert_eq!(file_name("dir/..name"), Some("..name".to_string()));
    assert_eq!(file_name("dir/é"), Some("é".to_string()));
}

#[test]
fn file_name_is_missing() {
    assert_eq!(file_name(""), None);
    assert_eq!(file_name("/"), None);
    assert_eq!(file_name("//"), None);
    assert_eq!(file_name("."), None);
    assert_eq!(file_name("./"), None);
    assert_eq!(file_name(".."), None);
    assert_eq!(file_name("dir/.."), None);
    assert_eq!(file_name("dir/../"), None);
    assert_eq!(file_name("/."), None);
}

#[test]
fn file_name_agrees_with_std() {
    for path in texts(&['/', '.', 'a', 'b'], 6) {
        assert_eq!(file_name(&path), std_file_name(&path), "file name of {path:?}");
    }
}

#[test]
fn parent_of_plain_paths() {
    assert_eq!(parent("/sys/class/leds/input3::capslock"), Some("/sys/class/leds".to_string()));
    assert_eq!(parent("/sys"), Some("/".to_string()));
    assert_eq!(parent("name"), Some(String::new()));
    assert_eq!(parent("dir/name"), Some("dir".to_string()));
    assert_eq!(parent("dir//name//"), Some("dir".to_string()));
    assert_eq!(parent("dir/./name"), Some("dir".to_string()));
    assert_eq!(parent("./name"), Some(".".to_string()));
    assert_eq!(parent("../name"), Some("..".to_string()));
    assert_eq!(parent("dir/.."), Some("dir".to_string()));
    assert_eq!(parent("."), Some(String::new()));
    assert_eq!(parent("/./name"), Some("/".to_string()));
}

#[test]
fn parent_is_missing() {
    assert_eq!(parent(""), None);
    assert_eq!(parent("/"), None);
    assert_eq!(parent("//"), None);
    assert_eq!(parent("/."), None);
}

#[test]
fn parent_agrees_with_std() {
    for path in texts(&['/', '.', 'a', 'b'], 6) {
        assert_eq!(parent(&path), std_parent(&path), "parent of {path:?}");
    }
}

#[test]
fn join_puts_a_separator_between() {
    assert_eq!(join("/sys/class/leds", "brightness"), "/sys/class/leds/brightness");
    assert_eq!(join("/sys/class/leds/", "brightness"), "/sys/class/leds/brightness");
    assert_eq!(join("", "brightness"), "brightness");
    assert_eq!(join("/", "sys"), "/sys");
    assert_eq!(join("dir", ""), "dir/");
    assert_eq!(join("dir", ".local/state"), "dir/.local/state");
    assert_eq!(join("", ""), "");
}

#[test]
fn join_with_a_rooted_path_gives_that_path() {
    assert_eq!(join("/home/user", "/etc"), "/etc");
    assert_eq!(join("", "/"), "/");
    assert_eq!(join("dir", "//x"), "//x");
}

#[test]
fn join_agrees_with_std() {
    let all = texts(&['/', '.', 'a'], 4);
    for base in &all {
        for rel in &all {
            let expected: PathBuf = Path::new(base).join(rel);
            assert_eq!(join(base, rel), expected.to_string_lossy(), "join of {base:?} and {rel:?}");
        }
    }
}

#[test]
fn ends_with_whole_components() {
    assert!(ends_with("/sys/class/backlight/X", "X"));
    assert!(!ends_with("/sys/class/backlight/YX", "X"));
    assert!(ends_with("/sys/class/backlight/X", "backlight/X"));
    assert!(ends_with("/sys/class/backlight/X", "/sys/class/backlight/X"));
    assert!(!ends_with("/sys/class/backlight/X", "/backlight/X"));
    assert!(!ends_with("/sys/class/backlight/X", "leds/X"));
    assert!(ends_with("/sys/class/backlight/X/", "X"));
    assert!(ends_with("/sys/class/backlight/X", "X/"));
    assert!(ends_with("/sys/class//backlight/./X", "backlight/X"));
    assert!(!ends_with("X", "backlight/X"));
}

#[test]
fn ends_with_the_empty_path() {
    assert!(ends_with("/sys/class/backlight/X", ""));
    assert!(ends_with("", ""));
    assert!(!ends_with("", "X"));
}

#[test]
fn ends_with_anchors() {
    assert!(ends_with("/", "/"));
    assert!(!ends_with("/a", "/"));
    assert!(ends_with("./a", "./a"));
    assert!(!ends_with("b/a", "./a"));
    assert!(ends_with("./a", "a"));
    assert!(ends_with("a/..", ".."));
    assert!(!ends_with("a/..", "a"));
}

#[test]
fn ends_with_agrees_with_std() {
    let all = texts(&['/', '.', 'a', 'b'], 4);
    for path in &all {
        for child in &all {
            assert_eq!(
                ends_with(path, child),
                Path::new(path).ends_with(child),
                "whether {path:?} ends with {child:?}"
            );
        }
    }
}

#[test]
fn is_absolute_means_rooted() {
    assert!(is_absolute("/"));
    assert!(is_absolute("/home/user/.local/state"));
    assert!(!is_absolute(""));
    assert!(!is_absolute("home"));
    assert!(!is_absolute("./home"));
    for path in texts(&['/', '.', 'a'], 5) {
        assert_eq!(is_absolute(&path), Path::new(&path).is_absolute(), "whether {path:?} is rooted");
    }
}

#[test]
fn parent_has_the_components_but_the_last() {
    for path in texts(&['/', '.', 'a', 'b'], 6) {
        let components = components_of(&path);
        match parent(&path) {
            Some(dir) => {
                assert!(path.starts_with(&dir));
                assert_eq!(components_of(&dir), components[..components.len() - 1], "for {path:?}");
            }
            None => assert!(components.is_empty() || components == vec![vec!['/']], "for {path:?}"),
        }
    }
}

#[test]
fn parent_and_file_name_make_up_the_path() {
    for path in texts(&['/', '.', 'a', 'b'], 6) {
        if let Some(name) = file_name(&path) {
            let dir = parent(&path).unwrap();
            assert_eq!(components_of(&join(&dir, &name)), components_of(&path), "for {path:?}");
        }
    }
}

#[test]
fn a_joined_name_is_the_file_name() {
    for dir in texts(&['/', '.', 'a'], 5) {
        for name in ["x", ".x", "..x", "x.y", "intel_backlight"] {
            let path = join(&dir, name);
            assert_eq!(file_name(&path), Some(name.to_string()), "for {dir:?} and {name:?}");
            assert!(ends_with(&path, name));
            let mut components = components_of(&dir);
            components.push(name.chars().collect());
            assert_eq!(components_of(&path), components);
        }
    }
}

#[test]
fn ending_with_a_plain_name_means_having_that_file_name() {
    for path in texts(&['/', '.', 'a', 'b'], 6) {
        for name in ["a", "b", "ab", "ba", ".a", "a."] {
            assert_eq!(
                ends_with(&path, name),
                file_name(&path).as_deref() == Some(name),
                "for {path:?} and {name:?}"
            );
        }
    }
}
