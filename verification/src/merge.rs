//! Appending the pages of one document to another.

use vstd::prelude::*;
use crate::document::{
    inherited, Document, DocumentError, DocumentView, EntryView, IndirectObject, ObjectKind,
    ObjectView, Slot, SlotView, MAX_OBJECTS,
};
use crate::graft::{
    copies, extends, kept, lemma_finite, reachable, reaches, GraftError, GraftMap,
};

verus! {

/// Why the pages could not be appended.
#[derive(Debug, PartialEq, Eq)]
pub enum MergeError {
    /// A value of a page could not be copied.
    Graft(GraftError),
    /// The destination refused the new page.
    Page(DocumentError),
}

/// The attributes of a page that are copied, in the order in which they are copied.
pub open spec fn page_keys() -> Seq<Seq<char>> {
    seq![
        "Contents"@,
        "Resources"@,
        "MediaBox"@,
        "CropBox"@,
        "BleedBox"@,
        "TrimBox"@,
        "ArtBox"@,
        "Rotate"@,
        "UserUnit"@,
    ]
}

/// The entry that marks an object as a page: the key `Type` with the name `/Page`.
pub open spec fn type_entry() -> EntryView {
    EntryView { key: "Type"@, value: SlotView::Inline(seq![47u8, 80u8, 97u8, 103u8, 101u8]) }
}

/// The value `v` with its reference, if it is one, taken through `m`.
pub open spec fn taken_through(v: SlotView, m: Map<usize, usize>) -> SlotView {
    match v {
        SlotView::Inline(bytes) => SlotView::Inline(bytes),
        SlotView::Ref(r) => SlotView::Ref(m[r]),
    }
}

/// The entries of the copy of the page `page` once the first `k` attributes are
/// done: the page mark, then each of those attributes that the page has, by itself
/// or by inheritance, with its value taken through `m`.
pub open spec fn attributes_copied(
    src: DocumentView,
    page: usize,
    m: Map<usize, usize>,
    k: int,
) -> Seq<EntryView>
    decreases k,
{
    if k <= 0 {
        seq![type_entry()]
    } else {
        let before = attributes_copied(src, page, m, k - 1);
        match inherited(src.objects, page as int, page_keys()[k - 1]) {
            Some(v) => before.push(EntryView { key: page_keys()[k - 1], value: taken_through(v, m) }),
            None => before,
        }
    }
}

/// The copy of the page `page`: a page of its own, with the nine attributes and
/// nothing else.
pub open spec fn page_copy(src: DocumentView, page: usize, m: Map<usize, usize>) -> ObjectView {
    ObjectView {
        kind: ObjectKind::Dictionary,
        parent: None,
        entries: attributes_copied(src, page, m, page_keys().len() as int),
        stream: Seq::empty(),
    }
}

/// The object that attribute `k` of page `j` of `src` refers to, if it is a reference.
pub open spec fn attribute_ref(src: DocumentView, j: int, k: int) -> Option<usize> {
    match inherited(src.objects, src.pages[j] as int, page_keys()[k]) {
        Some(SlotView::Ref(r)) => Some(r),
        _ => None,
    }
}

/// Attribute `k` of page `j` is a reference that leads to `x`.
pub open spec fn leads_to(src: DocumentView, j: int, k: int, x: usize) -> bool {
    match attribute_ref(src, j, k) {
        Some(r) => reaches(src, r, x),
        None => false,
    }
}

/// The objects of `src` that the pages before page `j`, and the attributes before
/// attribute `k` of page `j`, lead to.
pub open spec fn attached(src: DocumentView, j: int, k: int) -> Set<usize> {
    Set::new(
        |x: usize|
            x < src.objects.len() && exists|a: int, b: int|
                0 <= a < src.pages.len() && 0 <= b < page_keys().len() && (a < j || (a == j && b
                    < k)) && #[trigger] leads_to(src, a, b, x),
    )
}

/// The objects of `src` that its pages lead to through the nine attributes.
pub open spec fn attached_to_pages(src: DocumentView) -> Set<usize> {
    attached(src, src.pages.len() as int, 0)
}

/// No reference that the pages of `src` lead to through the nine attributes lacks
/// its object.
pub open spec fn pages_sound(src: DocumentView) -> bool {
    forall|j: int, k: int, x: usize|
        0 <= j < src.pages.len() && 0 <= k < page_keys().len() && #[trigger] leads_to(src, j, k, x)
            ==> x < src.objects.len()
}

/// The table of `before` has room for the copies of the pages of `src` and of all
/// that they lead to.
pub open spec fn pages_fit(src: DocumentView, before: DocumentView) -> bool {
    before.objects.len() + attached_to_pages(src).len() + src.pages.len() <= MAX_OBJECTS
}

/// Every reference among the first `k` attributes of the page `page` is mapped.
pub open spec fn attributes_mapped(
    src: DocumentView,
    page: usize,
    m: Map<usize, usize>,
    k: int,
) -> bool {
    forall|b: int|
        0 <= b < k ==> match #[trigger] inherited(src.objects, page as int, page_keys()[b]) {
            Some(SlotView::Ref(r)) => m.dom().contains(r),
            _ => true,
        }
}

/// `after` is `before` with the pages of `src` appended, `m` telling which object
/// of `after` is the copy of which object of `src`.
pub open spec fn merged(
    src: DocumentView,
    before: DocumentView,
    after: DocumentView,
    m: Map<usize, usize>,
) -> bool {
    &&& copies(src, after, m, before.objects.len() as int, Set::empty())
    &&& m.dom() == attached_to_pages(src)
    &&& after.objects.len() == before.objects.len() + m.dom().len() + src.pages.len()
    &&& forall|i: int| 0 <= i < before.objects.len() ==> #[trigger] after.objects[i] == before.objects[i]
    &&& after.pages.len() == before.pages.len() + src.pages.len()
    &&& forall|j: int| 0 <= j < before.pages.len() ==> #[trigger] after.pages[j] == before.pages[j]
    &&& forall|j: int|
        0 <= j < src.pages.len() ==> {
            let p = #[trigger] after.pages[before.pages.len() + j];
            &&& p == before.objects.len() + attached(src, j + 1, 0).len() + j
            &&& p < after.objects.len()
            &&& forall|s: usize| #[trigger] m.dom().contains(s) ==> m[s] != p
            &&& after.objects[p as int] == page_copy(src, src.pages[j], m)
            &&& attributes_mapped(src, src.pages[j], m, page_keys().len() as int)
        }
}

/// `after` holds the objects and pages of `before`, under their numbers and in their
/// order, and possibly more behind them.
pub open spec fn only_added(before: DocumentView, after: DocumentView) -> bool {
    &&& before.objects.len() <= after.objects.len()
    &&& forall|i: int| 0 <= i < before.objects.len() ==> #[trigger] after.objects[i] == before.objects[i]
    &&& before.pages.len() <= after.pages.len()
    &&& forall|j: int| 0 <= j < before.pages.len() ==> #[trigger] after.pages[j] == before.pages[j]
}

/// Taking the attributes through a larger map changes nothing where their
/// references were mapped already.
pub proof fn lemma_attributes_extend(
    src: DocumentView,
    page: usize,
    small: Map<usize, usize>,
    large: Map<usize, usize>,
    k: int,
)
    requires
        extends(small, large),
        attributes_mapped(src, page, small, k),
        k <= page_keys().len(),
    ensures
        attributes_mapped(src, page, large, k),
        attributes_copied(src, page, large, k) == attributes_copied(src, page, small, k),
    decreases k,
{
    if k > 0 {
        lemma_attributes_extend(src, page, small, large, k - 1);
        let found = inherited(src.objects, page as int, page_keys()[k - 1]);
        match found {
            Some(SlotView::Ref(r)) => {
                assert(small.dom().contains(r));
            },
            _ => {},
        }
    }
    assert forall|b: int| 0 <= b < k implies match #[trigger] inherited(
        src.objects,
        page as int,
        page_keys()[b],
    ) {
        Some(SlotView::Ref(r)) => large.dom().contains(r),
        _ => true,
    } by {
        match inherited(src.objects, page as int, page_keys()[b]) {
            Some(SlotView::Ref(r)) => {
                assert(small.dom().contains(r));
            },
            _ => {},
        }
    }
}

/// One more attribute attaches what it leads to.
pub proof fn lemma_attached_step(src: DocumentView, j: int, k: int)
    requires
        0 <= j < src.pages.len(),
        0 <= k < page_keys().len(),
    ensures
        attached(src, j, k + 1) == attached(src, j, k).union(
            match attribute_ref(src, j, k) {
                Some(r) => reachable(src, r),
                None => Set::empty(),
            },
        ),
{
    let more = match attribute_ref(src, j, k) {
        Some(r) => reachable(src, r),
        None => Set::empty(),
    };
    let left = attached(src, j, k + 1);
    let right = attached(src, j, k).union(more);
    assert forall|x: usize| left.contains(x) implies right.contains(x) by {
        let (a, b) = choose|a: int, b: int|
            0 <= a < src.pages.len() && 0 <= b < page_keys().len() && (a < j || (a == j && b < k
                + 1)) && #[trigger] leads_to(src, a, b, x);
        if a == j && b == k {
            assert(more.contains(x));
        } else {
            assert(leads_to(src, a, b, x));
            assert(attached(src, j, k).contains(x));
        }
    }
    assert forall|x: usize| right.contains(x) implies left.contains(x) by {
        if attached(src, j, k).contains(x) {
            let (a, b) = choose|a: int, b: int|
                0 <= a < src.pages.len() && 0 <= b < page_keys().len() && (a < j || (a == j && b
                    < k)) && #[trigger] leads_to(src, a, b, x);
            assert(leads_to(src, a, b, x));
        } else {
            assert(leads_to(src, j, k, x));
        }
    }
    assert(left =~= right);
}

/// What is attached when a page is done is what is attached when the next begins.
pub proof fn lemma_attached_next(src: DocumentView, j: int)
    requires
        0 <= j < src.pages.len(),
    ensures
        attached(src, j, page_keys().len() as int) == attached(src, j + 1, 0),
{
    let left = attached(src, j, page_keys().len() as int);
    let right = attached(src, j + 1, 0);
    assert forall|x: usize| left.contains(x) implies right.contains(x) by {
        let (a, b) = choose|a: int, b: int|
            0 <= a < src.pages.len() && 0 <= b < page_keys().len() && (a < j || (a == j && b
                < page_keys().len())) && #[trigger] leads_to(src, a, b, x);
        assert(leads_to(src, a, b, x));
    }
    assert forall|x: usize| right.contains(x) implies left.contains(x) by {
        let (a, b) = choose|a: int, b: int|
            0 <= a < src.pages.len() && 0 <= b < page_keys().len() && (a < j + 1 || (a == j + 1
                && b < 0)) && #[trigger] leads_to(src, a, b, x);
        assert(leads_to(src, a, b, x));
    }
    assert(left =~= right);
}

/// What is attached part of the way is attached in the end.
pub proof fn lemma_attached_part(src: DocumentView, j: int, k: int)
    requires
        0 <= j < src.pages.len(),
        0 <= k <= page_keys().len(),
    ensures
        attached(src, j, k).subset_of(attached_to_pages(src)),
{
    assert forall|x: usize| attached(src, j, k).contains(x) implies attached_to_pages(
        src,
    ).contains(x) by {
        let (a, b) = choose|a: int, b: int|
            0 <= a < src.pages.len() && 0 <= b < page_keys().len() && (a < j || (a == j && b < k))
                && #[trigger] leads_to(src, a, b, x);
        assert(leads_to(src, a, b, x));
    }
}

/// Where a map holds part of what the pages lead to, and one more attribute leads
/// to more than the table can take, the table cannot take all of it.
proof fn lemma_no_room(src: DocumentView, j: int, k: int, r: usize, start: Set<usize>)
    requires
        0 <= j < src.pages.len(),
        0 <= k < page_keys().len(),
        attribute_ref(src, j, k) == Some(r),
        start.subset_of(attached(src, j, k)),
    ensures
        attached_to_pages(src).len() - start.len() >= attached(src, j, k).len() - start.len()
            + reachable(src, r).difference(attached(src, j, k)).len(),
{
    let part = attached(src, j, k);
    let more = reachable(src, r);
    let all = attached_to_pages(src);
    lemma_attached_step(src, j, k);
    lemma_attached_part(src, j, k + 1);
    lemma_finite(all);
    crate::graft::lemma_gain(part, part.union(more), more);
    vstd::set_lib::lemma_len_subset(part.union(more), all);
}

/// The name of the `k`-th attribute that is copied.
fn page_key(k: usize) -> (r: &'static str)
    requires
        k < 9,
    ensures
        r@ == page_keys()[k as int],
        page_keys().len() == 9,
{
    if k == 0 {
        "Contents"
    } else if k == 1 {
        "Resources"
    } else if k == 2 {
        "MediaBox"
    } else if k == 3 {
        "CropBox"
    } else if k == 4 {
        "BleedBox"
    } else if k == 5 {
        "TrimBox"
    } else if k == 6 {
        "ArtBox"
    } else if k == 7 {
        "Rotate"
    } else {
        "UserUnit"
    }
}

/// An object with the page mark and nothing else.
fn new_page() -> (r: IndirectObject)
    ensures
        r@ == (ObjectView {
            kind: ObjectKind::Dictionary,
            parent: None,
            entries: seq![type_entry()],
            stream: Seq::empty(),
        }),
{
    let mut page = IndirectObject::new();
    let mut name: Vec<u8> = Vec::new();
    name.push(47u8);
    name.push(80u8);
    name.push(97u8);
    name.push(103u8);
    name.push(101u8);
    assert(name@ =~= seq![47u8, 80u8, 97u8, 103u8, 101u8]);
    page.push_entry("Type", Slot::Inline(name));
    assert(page@.entries =~= seq![type_entry()]);
    page
}

/// Builds the copy of page `j` of `src`, copying into `dest` what its attributes
/// lead to. The copy itself is not yet in `dest`.
fn copy_page(map: &mut GraftMap, dest: &mut Document, src: &Document, j: usize) -> (r: Result<
    IndirectObject,
    GraftError,
>)
    requires
        old(dest).wf(),
        old(map).wf(src, old(dest)),
        j < src@.pages.len(),
        old(map)@.dom() == attached(src@, j as int, 0),
    ensures
        final(dest).wf(),
        final(map).base() == old(map).base(),
        kept(old(map)@, old(dest)@, final(map)@, final(dest)@),
        match r {
            Ok(page) => {
                &&& final(map).wf(src, final(dest))
                &&& final(map)@.dom() == attached(src@, j as int, page_keys().len() as int)
                &&& page@ == page_copy(src@, src@.pages[j as int], final(map)@)
                &&& attributes_mapped(
                    src@,
                    src@.pages[j as int],
                    final(map)@,
                    page_keys().len() as int,
                )
                &&& forall|k: int, x: usize|
                    0 <= k < page_keys().len() && #[trigger] leads_to(src@, j as int, k, x) ==> x
                        < src@.objects.len()
            },
            Err(GraftError::Dangling(x)) => {
                &&& x >= src@.objects.len()
                &&& exists|k: int|
                    0 <= k < page_keys().len() && #[trigger] leads_to(src@, j as int, k, x)
            },
            Err(GraftError::Full) => old(dest)@.objects.len() + attached_to_pages(src@).len()
                - old(map)@.dom().len() > MAX_OBJECTS,
        },
{
    let ghost m0 = map@;
    let ghost d0 = dest@;
    let page_id: usize = match src.find_page(j) {
        Some(id) => id,
        None => 0,
    };
    let mut page = new_page();
    let mut k: usize = 0;
    proof {
        lemma_finite(m0.dom());
    }
    while k < 9
        invariant
            k <= 9,
            page_keys().len() == 9,
            m0 == old(map)@,
            d0 == old(dest)@,
            j < src@.pages.len(),
            page_id == src@.pages[j as int],
            dest.wf(),
            map.wf(src, dest),
            map.base() == old(map).base(),
            kept(m0, d0, map@, dest@),
            m0.dom() == attached(src@, j as int, 0),
            map@.dom() == attached(src@, j as int, k as int),
            attributes_mapped(src@, page_id, map@, k as int),
            page@ == (ObjectView {
                kind: ObjectKind::Dictionary,
                parent: None,
                entries: attributes_copied(src@, page_id, map@, k as int),
                stream: Seq::empty(),
            }),
            forall|b: int, x: usize|
                0 <= b < k && #[trigger] leads_to(src@, j as int, b, x) ==> x < src@.objects.len(),
        decreases 9 - k,
    {
        let key = page_key(k);
        let ghost m1 = map@;
        let ghost d1 = dest@;
        proof {
            lemma_attached_step(src@, j as int, k as int);
        }
        match src.get_inheritable(page_id, key) {
            Some(value) => {
                match map.graft(dest, src, value) {
                    Ok(copy) => {
                        proof {
                            lemma_attributes_extend(src@, page_id, m1, map@, k as int);
                            match value@ {
                                SlotView::Ref(r) => {
                                    assert forall|x: usize| #[trigger]
                                        leads_to(src@, j as int, k as int, x) implies x
                                        < src@.objects.len() by {
                                        assert(reaches(src@, r, x));
                                    }
                                },
                                SlotView::Inline(_) => {
                                    assert(map@.dom() =~= attached(src@, j as int, k + 1));
                                },
                            }
                            assert(copy@ == taken_through(value@, map@));
                        }
                        page.push_entry(key, copy);
                    },
                    Err(e) => {
                        proof {
                            match value@ {
                                SlotView::Ref(r) => {
                                    match e {
                                        GraftError::Dangling(x) => {
                                            assert(leads_to(src@, j as int, k as int, x));
                                        },
                                        GraftError::Full => {
                                            lemma_no_room(src@, j as int, k as int, r, m0.dom());
                                        },
                                    }
                                },
                                SlotView::Inline(_) => {},
                            }
                        }
                        return Err(e);
                    },
                }
            },
            None => {
                proof {
                    assert(map@.dom() =~= attached(src@, j as int, k + 1));
                }
            },
        }
        k += 1;
    }
    Ok(page)
}

/// Appends the pages of `src` to `dest`, in their order. Each new page is an object
/// of its own that holds the page mark and the nine attributes that its source page
/// has, by itself or by inheritance; what those lead to is copied once, however many
/// pages share it.
///
/// Succeeds where no reference that the pages lead to lacks its object and `dest`
/// has room for all the new objects. After a failure `dest` may hold some of the
/// pages already.
pub fn merge_pdf_document(dest: &mut Document, src: &Document) -> (r: Result<(), MergeError>)
    requires
        old(dest).wf(),
    ensures
        final(dest).wf(),
        match r {
            Ok(_) => {
                &&& pages_sound(src@)
                &&& pages_fit(src@, old(dest)@)
                &&& exists|m: Map<usize, usize>| #[trigger] merged(src@, old(dest)@, final(dest)@, m)
            },
            Err(MergeError::Graft(GraftError::Dangling(x))) => {
                &&& x >= src@.objects.len()
                &&& exists|j: int, k: int|
                    0 <= j < src@.pages.len() && 0 <= k < page_keys().len() && #[trigger] leads_to(
                        src@,
                        j,
                        k,
                        x,
                    )
            },
            Err(MergeError::Graft(GraftError::Full)) => !pages_fit(src@, old(dest)@),
            Err(MergeError::Page(e)) => e == DocumentError::Full && !pages_fit(src@, old(dest)@),
        },
        r is Ok <==> pages_sound(src@) && pages_fit(src@, old(dest)@),
        only_added(old(dest)@, final(dest)@),
{
    let ghost before = dest@;
    let page_count = src.page_count();
    let mut graft_map = GraftMap::new(dest);
    let mut j: usize = 0;
    proof {
        assert(graft_map@.dom() =~= attached(src@, 0, 0));
        assert(graft_map.wf(src, dest));
    }
    while j < page_count
        invariant
            j <= page_count,
            page_count == src@.pages.len(),
            page_keys().len() == 9,
            before == old(dest)@,
            dest.wf(),
            graft_map.wf(src, dest),
            graft_map.base() == before.objects.len(),
            graft_map@.dom() == attached(src@, j as int, 0),
            dest@.objects.len() == before.objects.len() + graft_map@.dom().len() + j,
            forall|i: int|
                0 <= i < before.objects.len() ==> #[trigger] dest@.objects[i] == before.objects[i],
            dest@.pages.len() == before.pages.len() + j,
            forall|a: int| 0 <= a < before.pages.len() ==> #[trigger] dest@.pages[a] == before.pages[a],
            forall|a: int|
                0 <= a < j ==> {
                    let p = #[trigger] dest@.pages[before.pages.len() + a];
                    &&& p == before.objects.len() + attached(src@, a + 1, 0).len() + a
                    &&& p < dest@.objects.len()
                    &&& forall|s: usize| #[trigger] graft_map@.dom().contains(s) ==> graft_map@[s] != p
                    &&& dest@.objects[p as int] == page_copy(src@, src@.pages[a], graft_map@)
                    &&& attributes_mapped(src@, src@.pages[a], graft_map@, page_keys().len() as int)
                },
            forall|a: int, b: int, x: usize|
                0 <= a < j && 0 <= b < page_keys().len() && #[trigger] leads_to(src@, a, b, x)
                    ==> x < src@.objects.len(),
        decreases page_count - j,
    {
        let ghost m1 = graft_map@;
        let ghost d1 = dest@;
        proof {
            lemma_attached_part(src@, j as int, 0);
            lemma_finite(attached_to_pages(src@));
            vstd::set_lib::lemma_len_subset(m1.dom(), attached_to_pages(src@));
        }
        let page = match copy_page(&mut graft_map, dest, src, j) {
            Ok(page) => page,
            Err(e) => {
                proof {
                    assert forall|i: int| 0 <= i < before.objects.len() implies #[trigger] dest@.objects[i]
                        == before.objects[i] by {
                        assert(d1.objects[i] == before.objects[i]);
                    }
                }
                return Err(MergeError::Graft(e));
            },
        };
        let ghost m2 = graft_map@;
        let ghost d2 = dest@;
        proof {
            lemma_attached_next(src@, j as int);
            lemma_attached_part(src@, j as int, page_keys().len() as int);
            vstd::set_lib::lemma_len_subset(m2.dom(), attached_to_pages(src@));
        }
        proof {
            assert forall|i: int| 0 <= i < before.objects.len() implies #[trigger] d2.objects[i]
                == before.objects[i] by {
                assert(d1.objects[i] == before.objects[i]);
            }
        }
        let id = match dest.add_object(page) {
            Ok(id) => id,
            Err(e) => {
                return Err(MergeError::Page(e));
            },
        };
        match dest.append_page(id) {
            Ok(_) => {},
            Err(e) => {
                return Err(MergeError::Page(e));
            },
        }
        proof {
            assert forall|a: int| 0 <= a < j + 1 implies {
                let p = #[trigger] dest@.pages[before.pages.len() + a];
                &&& p == before.objects.len() + attached(src@, a + 1, 0).len() + a
                &&& p < dest@.objects.len()
                &&& forall|s: usize| #[trigger] graft_map@.dom().contains(s) ==> graft_map@[s] != p
                &&& dest@.objects[p as int] == page_copy(src@, src@.pages[a], graft_map@)
                &&& attributes_mapped(src@, src@.pages[a], graft_map@, page_keys().len() as int)
            } by {
                if a < j {
                    let p = d1.pages[before.pages.len() + a];
                    assert(dest@.pages[before.pages.len() + a] == p);
                    assert(d2.objects[p as int] == d1.objects[p as int]);
                    lemma_attributes_extend(src@, src@.pages[a], m1, m2, page_keys().len() as int);
                }
            }
            assert forall|a: int| 0 <= a < before.pages.len() implies #[trigger] dest@.pages[a]
                == before.pages[a] by {
                assert(d1.pages[a] == before.pages[a]);
            }
            assert forall|i: int| 0 <= i < before.objects.len() implies #[trigger] dest@.objects[i]
                == before.objects[i] by {
                assert(d2.objects[i] == d1.objects[i]);
            }
            assert forall|s: usize| #[trigger]
                m2.dom().contains(s) implies crate::graft::object_copied(
                src@.objects[s as int],
                dest@.objects[m2[s] as int],
                m2,
            ) by {
                assert(dest@.objects[m2[s] as int] == d2.objects[m2[s] as int]);
            }
        }
        j += 1;
    }
    proof {
        assert(merged(src@, before, dest@, graft_map@));
        assert(pages_sound(src@));
    }
    Ok(())
}

} // verus!
