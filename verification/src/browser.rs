//! The headers with which a request passes for that of a browser.

use vstd::prelude::*;

verus! {

/// A header of a request.
#[derive(Debug, Clone, Copy, PartialEq, Eq)]
pub struct Header {
    pub name: &'static str,
    pub value: &'static str,
}

/// The headers of a browser's request, as name and value, in the order in which
/// they are set.
pub open spec fn browser_header_texts() -> Seq<(Seq<char>, Seq<char>)> {
    seq![
        (
            "Accept"@,
            "text/html,application/xhtml+xml,application/xml;q=0.9,image/avif,image/webp,*/*;q=0.8"@,
        ),
        ("Accept-Language"@, "en-US,en;q=0.5"@),
        ("Cache-Control"@, "max-age=0"@),
        ("User-Agent"@, "Mozilla/5.0 (Windows NT 10.0; rv:91.0) Gecko/20100101 Firefox/91.0"@),
    ]
}

/// The headers to set on a request so that it passes for that of a browser.
pub fn browser_headers() -> (r: Vec<Header>)
    ensures
        r@.len() == browser_header_texts().len(),
        forall|i: int|
            0 <= i < r@.len() ==> (#[trigger] r@[i]).name@ == browser_header_texts()[i].0
                && r@[i].value@ == browser_header_texts()[i].1,
{
    let mut r: Vec<Header> = Vec::new();
    r.push(
        Header {
            name: "Accept",
            value: "text/html,application/xhtml+xml,application/xml;q=0.9,image/avif,image/webp,*/*;q=0.8",
        },
    );
    r.push(Header { name: "Accept-Language", value: "en-US,en;q=0.5" });
    r.push(Header { name: "Cache-Control", value: "max-age=0" });
    r.push(
        Header {
            name: "User-Agent",
            value: "Mozilla/5.0 (Windows NT 10.0; rv:91.0) Gecko/20100101 Firefox/91.0",
        },
    );
    r
}

} // verus!
