//! Exercise numbers in the text of a document.

use vstd::prelude::*;
use crate::decimal::{parse_decimal, parse_i32};
use crate::numbers::{lemma_with_number_no_duplicates, with_number, ExerciseNumberSet};
use crate::text::{chars_of, find_from, first_index, lemma_first_index};

verus! {

/// One line of text. A character that has no readable form is `None`.
#[derive(Debug, Clone, PartialEq, Eq)]
pub struct TextLine {
    pub chars: Vec<Option<char>>,
}

/// A block of text: its lines from top to bottom.
#[derive(Debug, Clone, PartialEq, Eq)]
pub struct TextBlock {
    pub lines: Vec<TextLine>,
}

/// The text of a page: its blocks in reading order.
#[derive(Debug, Clone, PartialEq, Eq)]
pub struct PageText {
    pub blocks: Vec<TextBlock>,
}

/// What came of reading one page.
#[derive(Debug, Clone, PartialEq, Eq)]
pub enum PageScan {
    /// The text of the page.
    Readable(PageText),
    /// The page could not be read.
    Unreadable,
}

/// The document could not be scanned: `page` is the first page that could not be read.
#[derive(Debug, PartialEq, Eq)]
pub struct ExtractionError {
    pub page: usize,
}

/// What stands before an exercise number.
pub open spec fn exercise_marker() -> Seq<char> {
    "CCINP "@
}

/// What ends an exercise number.
pub open spec fn number_end() -> Seq<char> {
    " "@
}

/// The readable characters of a line, in order.
pub open spec fn readable(chars: Seq<Option<char>>) -> Seq<char>
    decreases chars.len(),
{
    if chars.len() == 0 {
        Seq::empty()
    } else {
        match chars.last() {
            Some(c) => readable(chars.drop_last()).push(c),
            None => readable(chars.drop_last()),
        }
    }
}

/// The text in which the number of a line stands: from behind the first marker up
/// to the next space, or to the end of the line where no space follows. `None`
/// where the line has no marker.
pub open spec fn number_text(line: Seq<char>) -> Option<Seq<char>> {
    match first_index(line, exercise_marker(), 0) {
        None => None,
        Some(p) => {
            let start = p + exercise_marker().len();
            let end = match first_index(line, number_end(), start) {
                Some(e) => e,
                None => line.len() as int,
            };
            Some(line.subrange(start, end))
        },
    }
}

/// The exercise number of a line: what its number text writes, if it writes a number.
pub open spec fn line_number(line: Seq<char>) -> Option<i32> {
    match number_text(line) {
        None => None,
        Some(text) => match parse_decimal(text) {
            Some(n) => Some(n as i32),
            None => None,
        },
    }
}

/// `found` after one more line.
pub open spec fn scan_line(found: Seq<i32>, line: TextLine) -> Seq<i32> {
    match line_number(readable(line.chars@)) {
        Some(n) => with_number(found, n),
        None => found,
    }
}

/// `found` after the lines `lines`, taken in order.
pub open spec fn scan_lines(found: Seq<i32>, lines: Seq<TextLine>) -> Seq<i32>
    decreases lines.len(),
{
    if lines.len() == 0 {
        found
    } else {
        scan_line(scan_lines(found, lines.drop_last()), lines.last())
    }
}

/// `found` after the blocks `blocks`, taken in order.
pub open spec fn scan_blocks(found: Seq<i32>, blocks: Seq<TextBlock>) -> Seq<i32>
    decreases blocks.len(),
{
    if blocks.len() == 0 {
        found
    } else {
        scan_lines(scan_blocks(found, blocks.drop_last()), blocks.last().lines@)
    }
}

/// `found` after the pages `pages`, taken in order. A page without text adds nothing.
pub open spec fn scan_pages(found: Seq<i32>, pages: Seq<PageScan>) -> Seq<i32>
    decreases pages.len(),
{
    if pages.len() == 0 {
        found
    } else {
        let before = scan_pages(found, pages.drop_last());
        match pages.last() {
            PageScan::Readable(text) => scan_blocks(before, text.blocks@),
            PageScan::Unreadable => before,
        }
    }
}

/// The exercise numbers of a document whose pages are `pages`: each number once, in
/// the order of its first line.
pub open spec fn exercise_numbers(pages: Seq<PageScan>) -> Seq<i32> {
    scan_pages(Seq::empty(), pages)
}

/// Page `i` is the first page of `pages` that could not be read.
pub open spec fn first_unreadable(pages: Seq<PageScan>, i: int) -> bool {
    &&& 0 <= i < pages.len()
    &&& pages[i] is Unreadable
    &&& forall|j: int| 0 <= j < i ==> pages[j] is Readable
}

/// Every page of `pages` could be read.
pub open spec fn all_readable(pages: Seq<PageScan>) -> bool {
    forall|i: int| 0 <= i < pages.len() ==> pages[i] is Readable
}

/// Scanning lines keeps what was found, in its place, and adds no number twice.
pub proof fn lemma_scan_lines(found: Seq<i32>, lines: Seq<TextLine>)
    requires
        found.no_duplicates(),
    ensures
        scan_lines(found, lines).no_duplicates(),
        found.is_prefix_of(scan_lines(found, lines)),
    decreases lines.len(),
{
    if lines.len() > 0 {
        lemma_scan_lines(found, lines.drop_last());
        let before = scan_lines(found, lines.drop_last());
        match line_number(readable(lines.last().chars@)) {
            Some(n) => {
                lemma_with_number_no_duplicates(before, n);
            },
            None => {},
        }
    }
}

/// Scanning blocks keeps what was found, in its place, and adds no number twice.
pub proof fn lemma_scan_blocks(found: Seq<i32>, blocks: Seq<TextBlock>)
    requires
        found.no_duplicates(),
    ensures
        scan_blocks(found, blocks).no_duplicates(),
        found.is_prefix_of(scan_blocks(found, blocks)),
    decreases blocks.len(),
{
    if blocks.len() > 0 {
        lemma_scan_blocks(found, blocks.drop_last());
        lemma_scan_lines(scan_blocks(found, blocks.drop_last()), blocks.last().lines@);
    }
}

/// Scanning pages keeps what was found, in its place, and adds no number twice.
pub proof fn lemma_scan_pages(found: Seq<i32>, pages: Seq<PageScan>)
    requires
        found.no_duplicates(),
    ensures
        scan_pages(found, pages).no_duplicates(),
        found.is_prefix_of(scan_pages(found, pages)),
    decreases pages.len(),
{
    if pages.len() > 0 {
        lemma_scan_pages(found, pages.drop_last());
        match pages.last() {
            PageScan::Readable(text) => {
                lemma_scan_blocks(scan_pages(found, pages.drop_last()), text.blocks@);
            },
            PageScan::Unreadable => {},
        }
    }
}

/// The line `line` names the exercise `n`.
pub open spec fn line_names(line: TextLine, n: i32) -> bool {
    line_number(readable(line.chars@)) == Some(n)
}

/// A line of the block `block` names the exercise `n`.
pub open spec fn block_names(block: TextBlock, n: i32) -> bool {
    exists|i: int| 0 <= i < block.lines@.len() && line_names(#[trigger] block.lines@[i], n)
}

/// The page `page` could be read and a line of it names the exercise `n`.
pub open spec fn page_names(page: PageScan, n: i32) -> bool {
    match page {
        PageScan::Readable(text) => exists|i: int|
            0 <= i < text.blocks@.len() && block_names(#[trigger] text.blocks@[i], n),
        PageScan::Unreadable => false,
    }
}

/// After a scan of lines, the numbers found are those found before and those that
/// the lines name.
pub proof fn lemma_scan_lines_finds(found: Seq<i32>, lines: Seq<TextLine>, n: i32)
    ensures
        scan_lines(found, lines).contains(n) <==> found.contains(n) || exists|i: int|
            0 <= i < lines.len() && line_names(#[trigger] lines[i], n),
    decreases lines.len(),
{
    if lines.len() > 0 {
        let head = lines.drop_last();
        let before = scan_lines(found, head);
        lemma_scan_lines_finds(found, head, n);
        lemma_with_number_members(before, lines.last(), n);
        if exists|i: int| 0 <= i < head.len() && line_names(#[trigger] head[i], n) {
            let i = choose|i: int| 0 <= i < head.len() && line_names(#[trigger] head[i], n);
            assert(line_names(lines[i], n));
        }
        if exists|i: int| 0 <= i < lines.len() && line_names(#[trigger] lines[i], n) {
            let i = choose|i: int| 0 <= i < lines.len() && line_names(#[trigger] lines[i], n);
            if i < head.len() {
                assert(line_names(head[i], n));
            }
        }
    }
}

/// After one more line, the numbers found are those found before and the one that
/// the line names.
proof fn lemma_with_number_members(found: Seq<i32>, line: TextLine, n: i32)
    ensures
        scan_line(found, line).contains(n) <==> found.contains(n) || line_names(line, n),
{
    match line_number(readable(line.chars@)) {
        Some(m) => {
            if !found.contains(m) {
                let after = found.push(m);
                assert(after[found.len() as int] == m);
                if found.contains(n) {
                    let i = choose|i: int| 0 <= i < found.len() && found[i] == n;
                    assert(after[i] == n);
                }
                if after.contains(n) {
                    let i = choose|i: int| 0 <= i < after.len() && after[i] == n;
                    if i < found.len() {
                        assert(found[i] == n);
                    }
                }
            }
        },
        None => {},
    }
}

/// After a scan of blocks, the numbers found are those found before and those that
/// the blocks name.
pub proof fn lemma_scan_blocks_finds(found: Seq<i32>, blocks: Seq<TextBlock>, n: i32)
    ensures
        scan_blocks(found, blocks).contains(n) <==> found.contains(n) || exists|i: int|
            0 <= i < blocks.len() && block_names(#[trigger] blocks[i], n),
    decreases blocks.len(),
{
    if blocks.len() > 0 {
        let head = blocks.drop_last();
        lemma_scan_blocks_finds(found, head, n);
        lemma_scan_lines_finds(scan_blocks(found, head), blocks.last().lines@, n);
        if exists|i: int| 0 <= i < head.len() && block_names(#[trigger] head[i], n) {
            let i = choose|i: int| 0 <= i < head.len() && block_names(#[trigger] head[i], n);
            assert(block_names(blocks[i], n));
        }
        if exists|i: int| 0 <= i < blocks.len() && block_names(#[trigger] blocks[i], n) {
            let i = choose|i: int| 0 <= i < blocks.len() && block_names(#[trigger] blocks[i], n);
            if i < head.len() {
                assert(block_names(head[i], n));
            }
        }
    }
}

/// After a scan of pages, the numbers found are those found before and those that
/// the pages name.
pub proof fn lemma_scan_pages_finds(found: Seq<i32>, pages: Seq<PageScan>, n: i32)
    ensures
        scan_pages(found, pages).contains(n) <==> found.contains(n) || exists|i: int|
            0 <= i < pages.len() && page_names(#[trigger] pages[i], n),
    decreases pages.len(),
{
    if pages.len() > 0 {
        let head = pages.drop_last();
        lemma_scan_pages_finds(found, head, n);
        match pages.last() {
            PageScan::Readable(text) => {
                lemma_scan_blocks_finds(scan_pages(found, head), text.blocks@, n);
            },
            PageScan::Unreadable => {},
        }
        if exists|i: int| 0 <= i < head.len() && page_names(#[trigger] head[i], n) {
            let i = choose|i: int| 0 <= i < head.len() && page_names(#[trigger] head[i], n);
            assert(page_names(pages[i], n));
        }
        if exists|i: int| 0 <= i < pages.len() && page_names(#[trigger] pages[i], n) {
            let i = choose|i: int| 0 <= i < pages.len() && page_names(#[trigger] pages[i], n);
            if i < head.len() {
                assert(page_names(head[i], n));
            }
        }
    }
}

/// The exercise numbers of a document are the numbers that its lines name, each
/// once.
pub proof fn lemma_exercise_numbers(pages: Seq<PageScan>, n: i32)
    ensures
        exercise_numbers(pages).no_duplicates(),
        exercise_numbers(pages).contains(n) <==> exists|i: int|
            0 <= i < pages.len() && page_names(#[trigger] pages[i], n),
{
    lemma_scan_pages(Seq::empty(), pages);
    lemma_scan_pages_finds(Seq::empty(), pages, n);
}

/// A line whose number text writes no number gives no exercise number, whatever
/// else the line holds.
pub proof fn lemma_unreadable_number_is_skipped(found: Seq<i32>, line: TextLine)
    requires
        match number_text(readable(line.chars@)) {
            Some(text) => parse_decimal(text) is None,
            None => true,
        },
    ensures
        scan_line(found, line) == found,
{
}

/// The readable characters of `line`, in order.
pub fn readable_chars(line: &TextLine) -> (r: Vec<char>)
    ensures
        r@ == readable(line.chars@),
{
    let mut r: Vec<char> = Vec::new();
    let mut i: usize = 0;
    while i < line.chars.len()
        invariant
            i <= line.chars@.len(),
            r@ == readable(line.chars@.take(i as int)),
        decreases line.chars@.len() - i,
    {
        proof {
            assert(line.chars@.take(i + 1).drop_last() =~= line.chars@.take(i as int));
        }
        match line.chars[i] {
            Some(c) => {
                r.push(c);
            },
            None => {},
        }
        i += 1;
    }
    proof {
        assert(line.chars@.take(i as int) =~= line.chars@);
    }
    r
}

/// The exercise number that the line `line` names, if it names one.
pub fn exercise_number(line: &Vec<char>) -> (r: Option<i32>)
    ensures
        r == line_number(line@),
{
    let marker = chars_of("CCINP ");
    let space = chars_of(" ");
    let total: usize = line.len();
    let start: usize = match find_from(line, &marker, 0) {
        Some(val) => {
            proof {
                lemma_first_index(line@, exercise_marker(), 0);
            }
            val + marker.len()
        },
        None => {
            return None;
        },
    };
    let end: usize = match find_from(line, &space, start) {
        Some(val) => {
            proof {
                lemma_first_index(line@, number_end(), start as int);
            }
            val
        },
        None => total,
    };
    match parse_i32(line, start, end) {
        Some(n) => Some(n),
        None => None,
    }
}

/// Scans the lines of a block.
fn scan_block(found: &mut ExerciseNumberSet, block: &TextBlock)
    requires
        old(found).wf(),
    ensures
        final(found).wf(),
        final(found)@ == scan_lines(old(found)@, block.lines@),
{
    let mut i: usize = 0;
    while i < block.lines.len()
        invariant
            i <= block.lines@.len(),
            found.wf(),
            found@ == scan_lines(old(found)@, block.lines@.take(i as int)),
        decreases block.lines@.len() - i,
    {
        proof {
            assert(block.lines@.take(i + 1).drop_last() =~= block.lines@.take(i as int));
        }
        let chars = readable_chars(&block.lines[i]);
        match exercise_number(&chars) {
            Some(n) => {
                found.insert(n);
            },
            None => {},
        }
        i += 1;
    }
    proof {
        assert(block.lines@.take(i as int) =~= block.lines@);
    }
}

/// Scans the blocks of a page.
fn scan_page(found: &mut ExerciseNumberSet, page: &PageText)
    requires
        old(found).wf(),
    ensures
        final(found).wf(),
        final(found)@ == scan_blocks(old(found)@, page.blocks@),
{
    let mut i: usize = 0;
    while i < page.blocks.len()
        invariant
            i <= page.blocks@.len(),
            found.wf(),
            found@ == scan_blocks(old(found)@, page.blocks@.take(i as int)),
        decreases page.blocks@.len() - i,
    {
        proof {
            assert(page.blocks@.take(i + 1).drop_last() =~= page.blocks@.take(i as int));
        }
        scan_block(found, &page.blocks[i]);
        i += 1;
    }
    proof {
        assert(page.blocks@.take(i as int) =~= page.blocks@);
    }
}

/// Collects the exercise numbers of a document from the text of its pages, page by
/// page. Fails at the first page that could not be read, and only there: a document
/// without numbers gives the empty set.
pub fn extract_exercise_numbers(pages: &Vec<PageScan>) -> (r: Result<
    ExerciseNumberSet,
    ExtractionError,
>)
    ensures
        match r {
            Ok(found) => {
                &&& all_readable(pages@)
                &&& found@ == exercise_numbers(pages@)
                &&& found.wf()
            },
            Err(e) => first_unreadable(pages@, e.page as int),
        },
{
    let mut found = ExerciseNumberSet::new();
    let mut i: usize = 0;
    while i < pages.len()
        invariant
            i <= pages@.len(),
            found.wf(),
            found@ == exercise_numbers(pages@.take(i as int)),
            forall|j: int| 0 <= j < i ==> pages@[j] is Readable,
        decreases pages@.len() - i,
    {
        proof {
            assert(pages@.take(i + 1).drop_last() =~= pages@.take(i as int));
        }
        match &pages[i] {
            PageScan::Readable(text) => {
                scan_page(&mut found, text);
            },
            PageScan::Unreadable => {
                return Err(ExtractionError { page: i });
            },
        }
        i += 1;
    }
    proof {
        assert(pages@.take(i as int) =~= pages@);
    }
    Ok(found)
}

} // verus!
