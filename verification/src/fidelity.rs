//! What the copy of a page holds.

use vstd::prelude::*;
use crate::document::{inherited, lookup, DocumentView, EntryView, SlotView};
use crate::graft::{copies, lemma_closed, object_copied, reachable};
use crate::merge::{
    attributes_copied, attributes_mapped, merged, page_copy, page_keys, taken_through, type_entry,
};

verus! {

/// The nine attribute names differ from each other and from `Type`.
pub proof fn lemma_keys_distinct()
    ensures
        page_keys().len() == 9,
        forall|a: int, b: int| 0 <= a < 9 && 0 <= b < 9 && a != b ==> page_keys()[a] != page_keys()[b],
        forall|a: int| 0 <= a < 9 ==> page_keys()[a] != type_entry().key,
{
    reveal_strlit("Type");
    reveal_strlit("Contents");
    reveal_strlit("Resources");
    reveal_strlit("MediaBox");
    reveal_strlit("CropBox");
    reveal_strlit("BleedBox");
    reveal_strlit("TrimBox");
    reveal_strlit("ArtBox");
    reveal_strlit("Rotate");
    reveal_strlit("UserUnit");
    let keys = page_keys();
    assert(type_entry().key.len() == 4);
    assert(keys[0].len() == 8 && keys[0][0] == 'C');
    assert(keys[1].len() == 9);
    assert(keys[2].len() == 8 && keys[2][0] == 'M');
    assert(keys[3].len() == 7 && keys[3][0] == 'C');
    assert(keys[4].len() == 8 && keys[4][0] == 'B');
    assert(keys[5].len() == 7 && keys[5][0] == 'T');
    assert(keys[6].len() == 6 && keys[6][0] == 'A');
    assert(keys[7].len() == 6 && keys[7][0] == 'R');
    assert(keys[8].len() == 8 && keys[8][0] == 'U');
}

/// Looking a key up behind one more entry: the earlier entries come first.
pub proof fn lemma_lookup_push(entries: Seq<EntryView>, entry: EntryView, key: Seq<char>)
    ensures
        lookup(entries.push(entry), key) == match lookup(entries, key) {
            Some(v) => Some(v),
            None => if entry.key == key {
                Some(entry.value)
            } else {
                None
            },
        },
    decreases entries.len(),
{
    let longer = entries.push(entry);
    if entries.len() == 0 {
        assert(longer.drop_first() =~= Seq::<EntryView>::empty());
        assert(longer[0] == entry);
        assert(lookup(longer.drop_first(), key) is None);
        assert(lookup(entries, key) is None);
    } else {
        assert(longer.drop_first() =~= entries.drop_first().push(entry));
        assert(longer[0] == entries[0]);
        if entries[0].key != key {
            lemma_lookup_push(entries.drop_first(), entry, key);
        }
    }
}

/// Once the first `k` attributes are done, the copy holds the page mark, each of
/// those attributes that the source page has, and no other entry.
pub proof fn lemma_attributes_copied(src: DocumentView, page: usize, m: Map<usize, usize>, k: int)
    requires
        0 <= k <= 9,
    ensures
        lookup(attributes_copied(src, page, m, k), type_entry().key) == Some(type_entry().value),
        forall|b: int|
            0 <= b < 9 ==> lookup(attributes_copied(src, page, m, k), #[trigger] page_keys()[b])
                == if b < k {
                match inherited(src.objects, page as int, page_keys()[b]) {
                    Some(v) => Some(taken_through(v, m)),
                    None => None,
                }
            } else {
                None
            },
        forall|i: int|
            0 <= i < attributes_copied(src, page, m, k).len() ==> {
                let key = (#[trigger] attributes_copied(src, page, m, k)[i]).key;
                key == type_entry().key || exists|b: int| 0 <= b < k && key == page_keys()[b]
            },
    decreases k,
{
    lemma_keys_distinct();
    let now = attributes_copied(src, page, m, k);
    if k == 0 {
        assert(now =~= seq![type_entry()]);
        assert(now.drop_first() =~= Seq::<EntryView>::empty());
        assert forall|b: int| 0 <= b < 9 implies lookup(now, #[trigger] page_keys()[b])
            is None by {
            assert(lookup(now.drop_first(), page_keys()[b]) is None);
        }
    } else {
        lemma_attributes_copied(src, page, m, k - 1);
        let before = attributes_copied(src, page, m, k - 1);
        match inherited(src.objects, page as int, page_keys()[k - 1]) {
            Some(v) => {
                let entry = EntryView { key: page_keys()[k - 1], value: taken_through(v, m) };
                assert(now == before.push(entry));
                lemma_lookup_push(before, entry, type_entry().key);
                assert forall|b: int| 0 <= b < 9 implies lookup(now, #[trigger] page_keys()[b])
                    == if b < k {
                    match inherited(src.objects, page as int, page_keys()[b]) {
                        Some(v) => Some(taken_through(v, m)),
                        None => None,
                    }
                } else {
                    None
                } by {
                    lemma_lookup_push(before, entry, page_keys()[b]);
                }
                assert forall|i: int| 0 <= i < now.len() implies {
                    let key = (#[trigger] now[i]).key;
                    key == type_entry().key || exists|b: int| 0 <= b < k && key == page_keys()[b]
                } by {
                    if i < before.len() {
                        assert(now[i] == before[i]);
                        let key = before[i].key;
                        if key != type_entry().key {
                            let b = choose|b: int| 0 <= b < k - 1 && key == page_keys()[b];
                            assert(0 <= b < k && key == page_keys()[b]);
                        }
                    } else {
                        assert(now[i].key == page_keys()[k - 1]);
                    }
                }
            },
            None => {
                assert(now == before);
                assert forall|i: int| 0 <= i < now.len() implies {
                    let key = (#[trigger] now[i]).key;
                    key == type_entry().key || exists|b: int| 0 <= b < k && key == page_keys()[b]
                } by {
                    let key = before[i].key;
                    if key != type_entry().key {
                        let b = choose|b: int| 0 <= b < k - 1 && key == page_keys()[b];
                        assert(0 <= b < k && key == page_keys()[b]);
                    }
                }
            },
        }
    }
}

/// The copy of a page has each of the nine attributes that its source page has, by
/// itself or by inheritance, with the value taken through the map; it lacks those
/// that the source page lacks; and besides them it holds the page mark and nothing
/// else.
pub proof fn lemma_page_copy_attributes(src: DocumentView, page: usize, m: Map<usize, usize>)
    ensures
        page_copy(src, page, m).parent is None,
        lookup(page_copy(src, page, m).entries, type_entry().key) == Some(type_entry().value),
        forall|b: int|
            0 <= b < page_keys().len() ==> lookup(
                page_copy(src, page, m).entries,
                #[trigger] page_keys()[b],
            ) == match inherited(src.objects, page as int, page_keys()[b]) {
                Some(v) => Some(taken_through(v, m)),
                None => None,
            },
        forall|i: int|
            0 <= i < page_copy(src, page, m).entries.len() ==> {
                let key = (#[trigger] page_copy(src, page, m).entries[i]).key;
                key == type_entry().key || page_keys().contains(key)
            },
{
    lemma_keys_distinct();
    lemma_attributes_copied(src, page, m, 9);
    let entries = page_copy(src, page, m).entries;
    assert forall|i: int| 0 <= i < entries.len() implies {
        let key = (#[trigger] entries[i]).key;
        key == type_entry().key || page_keys().contains(key)
    } by {
        let key = entries[i].key;
        if key != type_entry().key {
            let b = choose|b: int| 0 <= b < 9 && key == page_keys()[b];
            assert(page_keys()[b] == key);
        }
    }
}

/// After a merge the pages of the destination are its old pages, in their order,
/// and behind them one new page for each page of the source, in the source's order.
pub proof fn lemma_merged_page_order(
    src: DocumentView,
    before: DocumentView,
    after: DocumentView,
    m: Map<usize, usize>,
)
    requires
        merged(src, before, after, m),
    ensures
        after.pages.len() == before.pages.len() + src.pages.len(),
        after.pages.take(before.pages.len() as int) == before.pages,
        forall|j: int|
            0 <= j < src.pages.len() ==> after.objects[(#[trigger] after.pages[before.pages.len()
                + j]) as int] == page_copy(src, src.pages[j], m),
{
    assert(after.pages.take(before.pages.len() as int) =~= before.pages);
}

/// After a merge, the new page for page `j` of the source has attribute `b` exactly
/// where the source page has it, by itself or by inheritance. Its value is the
/// source's value; where that is a reference, it refers to the copy of the object,
/// which holds the same entries and stream.
pub proof fn lemma_merged_attribute(
    src: DocumentView,
    before: DocumentView,
    after: DocumentView,
    m: Map<usize, usize>,
    j: int,
    b: int,
)
    requires
        merged(src, before, after, m),
        0 <= j < src.pages.len(),
        0 <= b < page_keys().len(),
    ensures
        match inherited(src.objects, src.pages[j] as int, page_keys()[b]) {
            Some(SlotView::Inline(bytes)) => lookup(
                after.objects[after.pages[before.pages.len() + j] as int].entries,
                page_keys()[b],
            ) == Some(SlotView::Inline(bytes)),
            Some(SlotView::Ref(r)) => {
                &&& m.dom().contains(r)
                &&& lookup(
                    after.objects[after.pages[before.pages.len() + j] as int].entries,
                    page_keys()[b],
                ) == Some(SlotView::Ref(m[r]))
                &&& object_copied(src.objects[r as int], after.objects[m[r] as int], m)
            },
            None => lookup(
                after.objects[after.pages[before.pages.len() + j] as int].entries,
                page_keys()[b],
            ) is None,
        },
{
    let p = after.pages[before.pages.len() + j];
    assert(after.objects[p as int] == page_copy(src, src.pages[j], m));
    lemma_page_copy_attributes(src, src.pages[j], m);
    assert(attributes_mapped(src, src.pages[j], m, page_keys().len() as int));
    let key = page_keys()[b];
    match inherited(src.objects, src.pages[j] as int, key) {
        Some(SlotView::Ref(r)) => {
            assert(m.dom().contains(r));
        },
        _ => {},
    }
}

/// Once an object has been copied, all that it leads to has been copied too: to
/// copy it again is to copy nothing.
pub proof fn lemma_copied_once(
    src: DocumentView,
    dest: DocumentView,
    m: Map<usize, usize>,
    base: int,
    id: usize,
)
    requires
        copies(src, dest, m, base, Set::empty()),
        m.dom().contains(id),
    ensures
        reachable(src, id).subset_of(m.dom()),
        reachable(src, id).difference(m.dom()).len() == 0,
{
    assert forall|x: usize| reachable(src, id).contains(x) implies m.dom().contains(x) by {
        lemma_closed(src, dest, m, base, id, x);
    }
    assert(reachable(src, id).difference(m.dom()) =~= Set::empty());
}

} // verus!
