use brightctl::text::{chars_of, equal, glue, piece};

#[test]
fn chars_of_a_text() {
    assert_eq!(chars_of(""), Vec::<char>::new());
    assert_eq!(chars_of("a/é"), vec!['a', '/', 'é']);
    assert_eq!(chars_of("日本"), vec!['日', '本']);
}

#[test]
fn piece_counts_characters() {
    assert_eq!(piece("brightness", 0, 6), "bright");
    assert_eq!(piece("brightness", 6, 10), "ness");
    assert_eq!(piece("brightness", 3, 3), "");
    assert_eq!(piece("aéb", 1, 3), "éb");
    assert_eq!(piece("", 0, 0), "");
}

#[test]
fn glue_appends() {
    assert_eq!(glue("max_", "brightness"), "max_brightness");
    assert_eq!(glue("", "x"), "x");
    assert_eq!(glue("x", ""), "x");
    assert_eq!(glue("", ""), "");
}

#[test]
fn equal_compares_characters() {
    assert!(equal("leds", "leds"));
    assert!(equal("", ""));
    assert!(!equal("leds", "led"));
    assert!(!equal("leds", "Leds"));
    assert!(!equal("", " "));
}
