use fatpdf::extract::{
    exercise_number, extract_exercise_numbers, readable_chars, ExtractionError, PageScan, PageText,
    TextBlock, TextLine,
};

fn line(s: &str) -> TextLine {
    TextLine { chars: s.chars().map(Some).collect() }
}

fn page(blocks: &[&[&str]]) -> PageScan {
    PageScan::Readable(PageText {
        blocks: blocks
            .iter()
            .map(|lines| TextBlock { lines: lines.iter().map(|s| line(s)).collect() })
            .collect(),
    })
}

fn number(s: &str) -> Option<i32> {
    exercise_number(&s.chars().collect())
}

fn numbers(pages: Vec<PageScan>) -> Result<Vec<i32>, ExtractionError> {
    extract_exercise_numbers(&pages).map(|set| set.to_vec())
}

#[test]
fn number_of_a_line() {
    assert_eq!(number("CCINP 12"), Some(12));
    assert_eq!(number("Exercice CCINP 7 (analyse)"), Some(7));
    assert_eq!(number("CCINP -3 x"), Some(-3));
    assert_eq!(number("CCINP +3"), Some(3));
}

#[test]
fn line_without_number() {
    assert_eq!(number(""), None);
    assert_eq!(number("no marker 12"), None);
    assert_eq!(number("CCINP"), None);
    assert_eq!(number("CCINP "), None);
    assert_eq!(number("CCINP  12"), None);
    assert_eq!(number("CCINP_12"), None);
    assert_eq!(number("ccinp 12"), None);
    assert_eq!(number("CCINP 12."), None);
    assert_eq!(number("CCINP 99999999999"), None);
}

#[test]
fn only_the_first_marker_of_a_line_counts() {
    assert_eq!(number("CCINP 12 foo CCINP 7 CCINP 12"), Some(12));
    assert_eq!(number("CCINP abc CCINP 7"), None);
}

#[test]
fn unreadable_characters_are_skipped() {
    let l = TextLine { chars: vec![Some('C'), None, Some('C'), Some('I'), None] };
    assert_eq!(readable_chars(&l), vec!['C', 'C', 'I']);
    let mut chars: Vec<Option<char>> = "CCINP 4".chars().map(Some).collect();
    chars.insert(3, None);
    chars.push(None);
    chars.push(Some('2'));
    let pages = vec![PageScan::Readable(PageText {
        blocks: vec![TextBlock { lines: vec![TextLine { chars }] }],
    })];
    assert_eq!(numbers(pages), Ok(vec![42]));
}

#[test]
fn extraction_is_ordered_and_without_duplicates() {
    let pages = vec![page(&[&["CCINP 12 foo", "CCINP 7", "CCINP 12"]])];
    assert_eq!(numbers(pages), Ok(vec![12, 7]));
}

#[test]
fn extraction_skips_what_is_no_number() {
    let pages = vec![page(&[&["CCINP abc"]])];
    assert_eq!(numbers(pages), Ok(vec![]));
    let pages = vec![page(&[&["CCINP 3", "CCINP abc", "CCINP 5"]])];
    assert_eq!(numbers(pages), Ok(vec![3, 5]));
}

#[test]
fn extraction_goes_through_pages_and_blocks_in_order() {
    let pages = vec![
        page(&[&["title", "CCINP 5"], &["CCINP 1 a", "CCINP 5 b"]]),
        page(&[]),
        page(&[&[], &["CCINP 9"], &["CCINP 1", "CCINP 2"]]),
    ];
    assert_eq!(numbers(pages), Ok(vec![5, 1, 9, 2]));
}

#[test]
fn extraction_of_nothing() {
    assert_eq!(numbers(vec![]), Ok(vec![]));
    assert_eq!(numbers(vec![page(&[&["nothing here"]])]), Ok(vec![]));
}

#[test]
fn extraction_fails_at_the_first_unreadable_page() {
    let pages = vec![
        page(&[&["CCINP 1"]]),
        PageScan::Unreadable,
        page(&[&["CCINP 2"]]),
        PageScan::Unreadable,
    ];
    assert_eq!(numbers(pages), Err(ExtractionError { page: 1 }));
    assert_eq!(numbers(vec![PageScan::Unreadable]), Err(ExtractionError { page: 0 }));
}
