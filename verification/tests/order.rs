use std::path::{Component, Path, PathBuf};

use brightctl::order::{
    component_precedes_chars, components_precede_chars, precedes, sort_positions,
    text_precedes_chars,
};
use brightctl::path::components_of;

fn chars(text: &str) -> Vec<char> {
    text.chars().collect()
}

fn parts(path: &str) -> Vec<Vec<char>> {
    components_of(path)
}

/// Every text of at most `max_len` characters over `alphabet`.
fn all_texts(alphabet: &[char], max_len: usize) -> Vec<String> {
    let mut all = vec![String::new()];
    let mut last = vec![String::new()];
    for _ in 0..max_len {
        let mut next = Vec::new();
        for text in &last {
            for c in alphabet {
                let mut longer = text.clone();
                longer.push(*c);
                next.push(longer);
            }
        }
        all.extend(next.iter().cloned());
        last = next;
    }
    all
}

#[test]
fn text_precedes_reads_from_the_left() {
    assert!(text_precedes_chars(&chars(""), &chars("")));
    assert!(text_precedes_chars(&chars(""), &chars("a")));
    assert!(!text_precedes_chars(&chars("a"), &chars("")));
    assert!(text_precedes_chars(&chars("a"), &chars("a")));
    assert!(text_precedes_chars(&chars("a"), &chars("ab")));
    assert!(!text_precedes_chars(&chars("ab"), &chars("a")));
    assert!(text_precedes_chars(&chars("ab"), &chars("b")));
    assert!(text_precedes_chars(&chars("Z"), &chars("a")));
    assert!(text_precedes_chars(&chars("z"), &chars("é")));
}

#[test]
fn text_precedes_agrees_with_the_order_of_strings() {
    let texts = ["", "a", "ab", "abc", "b", "a/b", "a-b", "a b", "/", "//", "é", "e", "ź", "\u{10000}", "\u{ffff}"];
    for a in texts {
        for b in texts {
            assert_eq!(text_precedes_chars(&chars(a), &chars(b)), a <= b, "{a:?} and {b:?}");
        }
    }
}

#[test]
fn components_go_by_their_kind() {
    let root = chars("/");
    let here = chars(".");
    let up = chars("..");
    let name = chars("-");
    let other = chars("a");
    let ordered = [&root, &here, &up, &name, &other];
    for (i, c) in ordered.iter().enumerate() {
        for (j, d) in ordered.iter().enumerate() {
            assert_eq!(component_precedes_chars(c, d), i <= j, "{c:?} and {d:?}");
        }
    }
}

#[test]
fn components_are_those_of_std() {
    for path in all_texts(&['/', '.', 'a', 'b'], 6) {
        let expected: Vec<Vec<char>> = Path::new(&path)
            .components()
            .map(|c| match c {
                Component::RootDir => chars("/"),
                Component::CurDir => chars("."),
                Component::ParentDir => chars(".."),
                Component::Normal(name) => chars(&name.to_string_lossy()),
                Component::Prefix(_) => unreachable!(),
            })
            .collect();
        assert_eq!(components_of(&path), expected, "components of {path:?}");
    }
}

#[test]
fn paths_go_component_by_component() {
    assert!(precedes("/sys/class/backlight/zz", "/sys/class/leds/aa"));
    assert!(!precedes("/sys/class/leds/aa", "/sys/class/backlight/zz"));
    assert!(precedes("a", "a/b"));
    assert!(precedes("a/b", "a-b"));
    assert!(!precedes("a-b", "a/b"));
    assert!(precedes("a/b", "a//b"));
    assert!(precedes("a//b", "a/b"));
    assert!(precedes("/a", "a"));
    assert!(precedes("./a", "a"));
    assert!(precedes("../a", "-"));
    assert!(precedes("", "/"));
    assert!(components_precede_chars(&parts("a/b"), &parts("a/b/c")));
    assert!(!components_precede_chars(&parts("a/b/c"), &parts("a/b")));
}

#[test]
fn the_order_of_paths_is_that_of_std() {
    let all = all_texts(&['/', '.', 'a', '-'], 4);
    for a in &all {
        for b in &all {
            assert_eq!(precedes(a, b), Path::new(a) <= Path::new(b), "{a:?} and {b:?}");
        }
    }
}

#[test]
fn sorts_positions_by_their_keys() {
    let keys = vec![parts("c"), parts("a"), parts("b"), parts("ab"), parts("")];
    assert_eq!(sort_positions(&keys), vec![4, 1, 3, 2, 0]);
}

#[test]
fn sorts_nothing_and_one() {
    assert_eq!(sort_positions(&Vec::new()), Vec::<usize>::new());
    assert_eq!(sort_positions(&vec![parts("x")]), vec![0]);
}

#[test]
fn equal_keys_keep_their_order() {
    let keys = vec![parts("b"), parts("a"), parts("b/"), parts("./a"), parts("a"), parts("b/.")];
    assert_eq!(sort_positions(&keys), vec![3, 1, 4, 0, 2, 5]);
}

#[test]
fn sorting_agrees_with_the_sort_of_std() {
    let alphabet = ['a', 'b', '/', '.', '-'];
    let mut seed: u32 = 12345;
    for round in 0..300 {
        let len = round % 9;
        let mut paths: Vec<String> = Vec::new();
        for _ in 0..len {
            let mut path = String::new();
            seed = seed.wrapping_mul(1103515245).wrapping_add(12345);
            let size = (seed >> 16) % 5;
            for _ in 0..size {
                seed = seed.wrapping_mul(1103515245).wrapping_add(12345);
                path.push(alphabet[((seed >> 16) % 5) as usize]);
            }
            paths.push(path);
        }
        let keys: Vec<Vec<Vec<char>>> = paths.iter().map(|p| parts(p)).collect();
        let sorted: Vec<PathBuf> = sort_positions(&keys).into_iter().map(|i| PathBuf::from(&paths[i])).collect();
        let mut expected: Vec<PathBuf> = paths.iter().map(PathBuf::from).collect();
        expected.sort();
        // paths that std takes for equal may differ as texts, so the texts are compared
        let sorted: Vec<String> = sorted.iter().map(|p| p.to_string_lossy().into_owned()).collect();
        let expected: Vec<String> = expected.iter().map(|p| p.to_string_lossy().into_owned()).collect();
        assert_eq!(sorted, expected, "for {paths:?}");
    }
}
