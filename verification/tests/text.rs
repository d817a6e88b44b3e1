use fatpdf::text::{chars_of, find_from, occurs_at_index};

fn chars(s: &str) -> Vec<char> {
    s.chars().collect()
}

#[test]
fn chars_of_a_string() {
    assert_eq!(chars_of("aé\u{1F600}b"), vec!['a', 'é', '\u{1F600}', 'b']);
    assert_eq!(chars_of(""), Vec::<char>::new());
}

#[test]
fn find_the_first_occurrence() {
    let s = chars("abcabcabc");
    let pat = chars("bc");
    assert_eq!(find_from(&s, &pat, 0), Some(1));
    assert_eq!(find_from(&s, &pat, 1), Some(1));
    assert_eq!(find_from(&s, &pat, 2), Some(4));
    assert_eq!(find_from(&s, &pat, 7), Some(7));
    assert_eq!(find_from(&s, &pat, 8), None);
    assert_eq!(find_from(&s, &pat, 100), None);
}

#[test]
fn find_nothing() {
    assert_eq!(find_from(&chars("abc"), &chars("abcd"), 0), None);
    assert_eq!(find_from(&chars("abc"), &chars("x"), 0), None);
    assert_eq!(find_from(&chars(""), &chars("x"), 0), None);
}

#[test]
fn find_the_empty_pattern() {
    assert_eq!(find_from(&chars("abc"), &chars(""), 0), Some(0));
    assert_eq!(find_from(&chars("abc"), &chars(""), 3), Some(3));
    assert_eq!(find_from(&chars("abc"), &chars(""), 4), None);
    assert_eq!(find_from(&chars(""), &chars(""), 0), Some(0));
}

#[test]
fn find_agrees_with_the_standard_library_on_ascii() {
    let texts = ["", "a", "aaa", "abab", "xxabxxab", "CCINP 12 foo CCINP 7", "<ol><li></ol>"];
    let pats = ["a", "ab", "b", "CCINP ", " ", "<ol>", "</ol>", "zz"];
    for t in texts {
        for p in pats {
            assert_eq!(find_from(&chars(t), &chars(p), 0), t.find(p), "{:?} in {:?}", p, t);
        }
    }
}

#[test]
fn occurrence_at_an_index() {
    let s = chars("hello");
    assert!(occurs_at_index(&s, &chars("ell"), 1));
    assert!(!occurs_at_index(&s, &chars("ell"), 0));
    assert!(!occurs_at_index(&s, &chars("lo"), 4));
    assert!(occurs_at_index(&s, &chars("lo"), 3));
    assert!(occurs_at_index(&s, &chars(""), 5));
    assert!(!occurs_at_index(&s, &chars(""), 6));
}
