use textkit::search::{bytes_contain, str_contains};

fn strings_up_to(letters: &[char], longest: usize) -> Vec<String> {
    let mut all = vec![String::new()];
    let mut last = vec![String::new()];
    for _ in 0..longest {
        let mut next = Vec::new();
        for s in &last {
            for c in letters {
                let mut t = s.clone();
                t.push(*c);
                next.push(t);
            }
        }
        all.extend(next.iter().cloned());
        last = next;
    }
    all
}

#[test]
fn string_search_finds_a_part_anywhere() {
    assert!(str_contains("abc", "a"));
    assert!(str_contains("abc", "b"));
    assert!(str_contains("abc", "c"));
    assert!(str_contains("abc", "ab"));
    assert!(str_contains("abc", "bc"));
    assert!(str_contains("abc", "abc"));
    assert!(!str_contains("abc", "ac"));
    assert!(!str_contains("abc", "abcd"));
    assert!(!str_contains("abc", "d"));
    assert!(!str_contains("ab", "ba"));
}

#[test]
fn empty_string_is_part_of_every_string() {
    assert!(str_contains("", ""));
    assert!(str_contains("abc", ""));
    assert!(!str_contains("", "a"));
}

#[test]
fn string_search_tells_repeats_apart() {
    assert!(str_contains("aaab", "aab"));
    assert!(str_contains("abababc", "ababc"));
    assert!(!str_contains("ababab", "ababc"));
    assert!(str_contains("mississippi", "issip"));
    assert!(!str_contains("mississippi", "issipi"));
}

#[test]
fn string_search_is_exact_on_case() {
    assert!(!str_contains("Hello", "hello"));
    assert!(str_contains("Hello", "ello"));
}

#[test]
fn string_search_takes_characters_whole() {
    assert!(str_contains("na\u{ef}ve", "\u{ef}v"));
    assert!(!str_contains("na\u{ef}ve", "\u{ee}"));
    assert!(str_contains("\u{65e5}\u{672c}\u{8a9e}", "\u{672c}\u{8a9e}"));
    assert!(!str_contains("\u{65e5}\u{672c}\u{8a9e}", "\u{8a9e}\u{672c}"));
    assert!(str_contains("a\u{1f600}b", "\u{1f600}"));
    assert!(!str_contains("a\u{1f600}b", "\u{1f601}"));
}

#[test]
fn string_search_agrees_with_the_standard_library() {
    let letters = ['a', 'b', '\u{e9}', '\u{20ac}'];
    let hays = strings_up_to(&letters, 4);
    let needles = strings_up_to(&letters, 3);
    for hay in &hays {
        for needle in &needles {
            assert_eq!(
                str_contains(hay, needle),
                hay.contains(needle.as_str()),
                "{:?} in {:?}",
                needle,
                hay
            );
        }
    }
}

#[test]
fn byte_search_finds_a_part_anywhere() {
    assert!(bytes_contain(&[1, 2, 3], &[]));
    assert!(bytes_contain(&[], &[]));
    assert!(!bytes_contain(&[], &[1]));
    assert!(bytes_contain(&[1, 2, 3], &[1, 2]));
    assert!(bytes_contain(&[1, 2, 3], &[2, 3]));
    assert!(bytes_contain(&[1, 2, 3], &[1, 2, 3]));
    assert!(!bytes_contain(&[1, 2, 3], &[1, 3]));
    assert!(!bytes_contain(&[1, 2, 3], &[1, 2, 3, 4]));
    assert!(bytes_contain(&[0, 0, 1, 0, 0, 0, 1], &[0, 0, 0, 1]));
}
