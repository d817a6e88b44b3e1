use fatpdf::week_list::parse_week_list;

#[test]
fn week_list_two_links() {
    let s = "<li><a href=\"https://a.example/1.pdf\">one</a></li>\n<li><a href=\"b.pdf\">two</a></li>";
    assert_eq!(
        parse_week_list(s),
        vec!["https://a.example/1.pdf".to_string(), "b.pdf".to_string()]
    );
}

#[test]
fn week_list_none() {
    assert_eq!(parse_week_list("<ol></ol>"), Vec::<String>::new());
    assert_eq!(parse_week_list(""), Vec::<String>::new());
}

#[test]
fn week_list_unclosed_link_ends_the_list() {
    let s = "<li><a href=\"x\"></a><li><a href=\"never closed";
    assert_eq!(parse_week_list(s), vec!["x".to_string()]);
}

#[test]
fn week_list_non_ascii() {
    let s = "é<li><a href=\"ça.pdf\">é</a>";
    assert_eq!(parse_week_list(s), vec!["ça.pdf".to_string()]);
}

#[test]
fn week_list_link_may_be_empty() {
    assert_eq!(parse_week_list("<li><a href=\"\">"), vec![String::new()]);
}

#[test]
fn week_list_search_goes_on_behind_the_quote() {
    let s = "<li><a href=\"a<li><a href=\"b\"<li><a href=\"c\"";
    assert_eq!(parse_week_list(s), vec!["a<li><a href=".to_string(), "c".to_string()]);
}

#[test]
fn page_with_a_list() {
    let page = "<html><ol>\n<li><a href=\"w1.pdf\">1</a></li>\n<li><a href=\"w2.pdf\">2</a></li>\n</ol><li><a href=\"no.pdf\"></html>";
    assert_eq!(
        fatpdf::week_list::week_list_of_page(page),
        Ok(vec!["w1.pdf".to_string(), "w2.pdf".to_string()])
    );
}

#[test]
fn page_with_an_empty_list() {
    assert_eq!(fatpdf::week_list::week_list_of_page("<ol></ol>"), Ok(vec![]));
}

#[test]
fn page_without_list_start() {
    assert_eq!(
        fatpdf::week_list::week_list_of_page("<ul></ol>"),
        Err(fatpdf::week_list::WeekListError::NoListStart)
    );
}

#[test]
fn page_without_list_end() {
    assert_eq!(
        fatpdf::week_list::week_list_of_page("</ol><ol><li><a href=\"x\">"),
        Err(fatpdf::week_list::WeekListError::NoListEnd)
    );
}

#[test]
fn headers_of_a_browser() {
    let headers: Vec<(&str, &str)> =
        fatpdf::browser::browser_headers().iter().map(|h| (h.name, h.value)).collect();
    assert_eq!(
        headers,
        vec![
            (
                "Accept",
                "text/html,application/xhtml+xml,application/xml;q=0.9,image/avif,image/webp,*/*;q=0.8"
            ),
            ("Accept-Language", "en-US,en;q=0.5"),
            ("Cache-Control", "max-age=0"),
            ("User-Agent", "Mozilla/5.0 (Windows NT 10.0; rv:91.0) Gecko/20100101 Firefox/91.0"),
        ]
    );
}
