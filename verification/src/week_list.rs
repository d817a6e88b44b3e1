//! The list of links on the page that lists the weeks.

use vstd::prelude::*;
use crate::text::{chars_of, find_from, first_index, lemma_first_index};

verus! {

/// What stands before each link of the list.
pub open spec fn link_marker() -> Seq<char> {
    "<li><a href=\""@
}

/// What ends a link.
pub open spec fn link_end() -> Seq<char> {
    "\""@
}

/// The links of `s` that begin at or after `from`: each one stands between a marker
/// and the next double quote, and the search goes on behind that quote. A marker
/// with no quote behind it ends the list.
pub open spec fn links_from(s: Seq<char>, from: int) -> Seq<Seq<char>>
    decreases s.len() - from,
{
    if from < 0 {
        Seq::empty()
    } else {
        match first_index(s, link_marker(), from) {
            None => Seq::empty(),
            Some(p) => {
                let start = p + link_marker().len();
                match first_index(s, link_end(), start) {
                    None => Seq::empty(),
                    Some(e) => {
                        proof {
                            reveal_strlit("\"");
                            lemma_first_index(s, link_marker(), from);
                            lemma_first_index(s, link_end(), start);
                        }
                        seq![s.subrange(start, e)] + links_from(s, e + 1)
                    },
                }
            },
        }
    }
}

/// The links of `s`, in the order in which they stand.
pub open spec fn week_links(s: Seq<char>) -> Seq<Seq<char>> {
    links_from(s, 0)
}

/// Returns the links of the list `s`, in order.
pub fn parse_week_list(s: &str) -> (res: Vec<String>)
    ensures
        res@.len() == week_links(s@).len(),
        forall|i: int| 0 <= i < res@.len() ==> (#[trigger] res@[i])@ == week_links(s@)[i],
{
    let chars = chars_of(s);
    let marker = chars_of("<li><a href=\"");
    let quote = chars_of("\"");
    let mut res: Vec<String> = Vec::new();
    let ghost mut done: Seq<Seq<char>> = Seq::empty();
    let mut pos: usize = 0;
    let total: usize = chars.len();
    loop
        invariant
            chars@ == s@,
            total == chars@.len(),
            marker@ == link_marker(),
            quote@ == link_end(),
            pos <= chars@.len(),
            res@.len() == done.len(),
            forall|i: int| 0 <= i < res@.len() ==> (#[trigger] res@[i])@ == done[i],
            week_links(s@) == done + links_from(s@, pos as int),
        ensures
            res@.len() == week_links(s@).len(),
            forall|i: int| 0 <= i < res@.len() ==> (#[trigger] res@[i])@ == week_links(s@)[i],
        decreases chars@.len() - pos,
    {
        let link_start = match find_from(&chars, &marker, pos) {
            Some(val) => {
                proof {
                    lemma_first_index(s@, link_marker(), pos as int);
                }
                val + marker.len()
            },
            None => {
                assert(done + Seq::<Seq<char>>::empty() =~= done);
                break;
            },
        };
        let link_end = match find_from(&chars, &quote, link_start) {
            Some(val) => {
                proof {
                    reveal_strlit("\"");
                    lemma_first_index(s@, link_end(), link_start as int);
                }
                val
            },
            None => {
                assert(done + Seq::<Seq<char>>::empty() =~= done);
                break;
            },
        };
        let link = s.substring_char(link_start, link_end);
        res.push(link.to_owned());
        proof {
            let ghost one = seq![s@.subrange(link_start as int, link_end as int)];
            assert(done + (one + links_from(s@, link_end + 1)) =~= done.push(one[0]) + links_from(
                s@,
                link_end + 1,
            ));
            done = done.push(one[0]);
        }
        pos = link_end + 1;
    }
    res
}

/// Why a page gave no list of weeks.
#[derive(Debug, PartialEq, Eq)]
pub enum WeekListError {
    /// The page has no `<ol>`.
    NoListStart,
    /// No `</ol>` follows the first `<ol>`.
    NoListEnd,
}

/// What opens the list of weeks.
pub open spec fn list_start() -> Seq<char> {
    "<ol>"@
}

/// What closes the list of weeks.
pub open spec fn list_end() -> Seq<char> {
    "</ol>"@
}

/// The text between the first `<ol>` of `body` and the first `</ol>` behind it.
pub open spec fn list_section(body: Seq<char>) -> Result<Seq<char>, WeekListError> {
    match first_index(body, list_start(), 0) {
        None => Err(WeekListError::NoListStart),
        Some(p) => {
            let start = p + list_start().len();
            match first_index(body, list_end(), start) {
                None => Err(WeekListError::NoListEnd),
                Some(e) => Ok(body.subrange(start, e)),
            }
        },
    }
}

/// Returns the links of the list of weeks that the page `body` holds, in order.
pub fn week_list_of_page(body: &str) -> (res: Result<Vec<String>, WeekListError>)
    ensures
        match res {
            Ok(links) => {
                &&& list_section(body@) is Ok
                &&& links@.len() == week_links(list_section(body@)->Ok_0).len()
                &&& forall|i: int|
                    0 <= i < links@.len() ==> (#[trigger] links@[i])@ == week_links(
                        list_section(body@)->Ok_0,
                    )[i]
            },
            Err(e) => list_section(body@) == Err::<Seq<char>, WeekListError>(e),
        },
{
    let chars = chars_of(body);
    let open = chars_of("<ol>");
    let close = chars_of("</ol>");
    let total: usize = chars.len();
    let start: usize = match find_from(&chars, &open, 0) {
        Some(val) => {
            proof {
                lemma_first_index(body@, list_start(), 0);
            }
            val + open.len()
        },
        None => {
            return Err(WeekListError::NoListStart);
        },
    };
    let end: usize = match find_from(&chars, &close, start) {
        Some(val) => {
            proof {
                lemma_first_index(body@, list_end(), start as int);
            }
            val
        },
        None => {
            return Err(WeekListError::NoListEnd);
        },
    };
    Ok(parse_week_list(body.substring_char(start, end)))
}

} // verus!
