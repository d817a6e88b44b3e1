//! Copying objects from one document into another, each object once.

use std::collections::HashMap;
use vstd::prelude::*;
use crate::document::{
    copy_bytes, Document, DocumentView, Entry, EntryView, IndirectObject, ObjectView, Slot,
    SlotView, MAX_OBJECTS,
};

verus! {

broadcast use vstd::std_specs::hash::group_hash_axioms;

/// Why an object could not be copied.
#[derive(Debug, PartialEq, Eq)]
pub enum GraftError {
    /// The source document holds a reference to this number and no such object.
    Dangling(usize),
    /// The destination's table is full.
    Full,
}

/// For one source and one destination document: which object of the destination
/// is the copy of which object of the source.
pub struct GraftMap {
    map: HashMap<usize, usize>,
    base: usize,
}

impl View for GraftMap {
    type V = Map<usize, usize>;

    closed spec fn view(&self) -> Map<usize, usize> {
        self.map@
    }
}

/// The value `d` is the value `s` with its reference, if it is one, taken through `m`.
pub open spec fn slot_copied(s: SlotView, d: SlotView, m: Map<usize, usize>) -> bool {
    match s {
        SlotView::Inline(bytes) => d == SlotView::Inline(bytes),
        SlotView::Ref(r) => m.dom().contains(r) && d == SlotView::Ref(m[r]),
    }
}

/// The entries `d` are the entries `s`, in order, with every reference taken through `m`.
pub open spec fn entries_copied(s: Seq<EntryView>, d: Seq<EntryView>, m: Map<usize, usize>) -> bool {
    &&& d.len() == s.len()
    &&& forall|i: int|
        0 <= i < s.len() ==> (#[trigger] d[i]).key == s[i].key && slot_copied(
            s[i].value,
            d[i].value,
            m,
        )
}

/// The object `d` is a copy of the object `s`: the same kind, entries and stream, every
/// reference taken through `m`, and no place in a page tree.
pub open spec fn object_copied(s: ObjectView, d: ObjectView, m: Map<usize, usize>) -> bool {
    &&& d.kind == s.kind
    &&& d.parent is None
    &&& d.stream == s.stream
    &&& entries_copied(s.entries, d.entries, m)
}

/// `m` maps objects of `src` to distinct objects of `dest` at or after `base`, and
/// every mapped object outside `pending` has its copy there, with all that it
/// refers to mapped as well.
pub open spec fn copies(
    src: DocumentView,
    dest: DocumentView,
    m: Map<usize, usize>,
    base: int,
    pending: Set<usize>,
) -> bool {
    &&& m.dom().finite()
    &&& pending.subset_of(m.dom())
    &&& base <= dest.objects.len()
    &&& forall|s: usize| #[trigger]
        m.dom().contains(s) ==> s < src.objects.len() && base <= m[s] < dest.objects.len()
    &&& forall|s: usize, t: usize|
        m.dom().contains(s) && m.dom().contains(t) && #[trigger] m[s] == #[trigger] m[t] ==> s
            == t
    &&& forall|s: usize| #[trigger]
        m.dom().contains(s) && !pending.contains(s) ==> object_copied(
            src.objects[s as int],
            dest.objects[m[s] as int],
            m,
        )
}

/// The object `a` of `src` holds a reference to `b`.
pub open spec fn refers(src: DocumentView, a: usize, b: usize) -> bool {
    &&& a < src.objects.len()
    &&& exists|i: int|
        0 <= i < src.objects[a as int].entries.len() && (
        #[trigger] src.objects[a as int].entries[i]).value == SlotView::Ref(b)
}

/// Each number of `path` but the last is an object that refers to the next.
pub open spec fn is_path(src: DocumentView, path: Seq<usize>) -> bool {
    &&& path.len() > 0
    &&& forall|i: int| 0 <= i < path.len() - 1 ==> refers(src, #[trigger] path[i], path[i + 1])
}

/// From `from`, references lead to `to` in some number of steps, possibly none.
pub open spec fn reaches(src: DocumentView, from: usize, to: usize) -> bool {
    exists|path: Seq<usize>| #[trigger] is_path(src, path) && path[0] == from && path.last() == to
}

/// The objects of `src` that references lead to from `from`.
pub open spec fn reachable(src: DocumentView, from: usize) -> Set<usize> {
    Set::new(|x: usize| x < src.objects.len() && reaches(src, from, x))
}

/// How many objects of `src` that `from` leads to the map `m` does not hold yet.
pub open spec fn still_to_copy(src: DocumentView, from: usize, m: Map<usize, usize>) -> nat {
    reachable(src, from).difference(m.dom()).len()
}

/// No reference that can be reached from `from`, `from` itself included, lacks its object.
pub open spec fn sound_from(src: DocumentView, from: usize) -> bool {
    forall|x: usize| reaches(src, from, x) ==> x < src.objects.len()
}

/// Every number is reached from itself.
pub proof fn lemma_reaches_self(src: DocumentView, a: usize)
    ensures
        reaches(src, a, a),
{
    let path = seq![a];
    assert(is_path(src, path) && path[0] == a && path.last() == a);
}

/// What is reached from an object that `a` refers to is reached from `a`.
pub proof fn lemma_reaches_step(src: DocumentView, a: usize, b: usize, c: usize)
    requires
        refers(src, a, b),
        reaches(src, b, c),
    ensures
        reaches(src, a, c),
{
    let tail = choose|path: Seq<usize>| #[trigger]
        is_path(src, path) && path[0] == b && path.last() == c;
    let path = seq![a] + tail;
    assert forall|i: int| 0 <= i < path.len() - 1 implies refers(
        src,
        #[trigger] path[i],
        path[i + 1],
    ) by {
        if i > 0 {
            assert(path[i] == tail[i - 1]);
            assert(path[i + 1] == tail[i]);
        }
    }
    assert(is_path(src, path) && path[0] == a && path.last() == c);
}

/// Where every mapped object has its copy, the map holds all that a mapped object
/// leads to.
pub proof fn lemma_closed(
    src: DocumentView,
    dest: DocumentView,
    m: Map<usize, usize>,
    base: int,
    from: usize,
    to: usize,
)
    requires
        copies(src, dest, m, base, Set::empty()),
        m.dom().contains(from),
        reaches(src, from, to),
    ensures
        m.dom().contains(to),
{
    let path = choose|path: Seq<usize>| #[trigger]
        is_path(src, path) && path[0] == from && path.last() == to;
    lemma_closed_path(src, dest, m, base, path, path.len() - 1);
}

/// Along a path that starts at a mapped object, every object is mapped.
proof fn lemma_closed_path(
    src: DocumentView,
    dest: DocumentView,
    m: Map<usize, usize>,
    base: int,
    path: Seq<usize>,
    k: int,
)
    requires
        copies(src, dest, m, base, Set::empty()),
        is_path(src, path),
        m.dom().contains(path[0]),
        0 <= k < path.len(),
    ensures
        m.dom().contains(path[k]),
    decreases k,
{
    if k > 0 {
        lemma_closed_path(src, dest, m, base, path, k - 1);
        let a = path[k - 1];
        let b = path[k];
        assert(refers(src, a, b));
        let i = choose|i: int|
            0 <= i < src.objects[a as int].entries.len() && (
            #[trigger] src.objects[a as int].entries[i]).value == SlotView::Ref(b);
        assert(m.dom().contains(a) && !Set::<usize>::empty().contains(a));
        assert(object_copied(src.objects[a as int], dest.objects[m[a] as int], m));
        let copy = dest.objects[m[a] as int].entries;
        assert(slot_copied(src.objects[a as int].entries[i].value, copy[i].value, m));
    }
}

/// Every set of object numbers is finite.
pub proof fn lemma_finite(s: Set<usize>)
    ensures
        s.finite(),
{
    broadcast use vstd::set_lib::full_set_properties;

    assert(Set::<usize>::full().finite());
    assert(s.subset_of(Set::<usize>::full()));
    vstd::set_lib::lemma_len_subset(s, Set::<usize>::full());
}

/// What a map gains by growing to hold `more` is what of `more` it did not hold.
pub proof fn lemma_gain(before: Set<usize>, after: Set<usize>, more: Set<usize>)
    requires
        after == before.union(more),
    ensures
        after.len() - before.len() == more.difference(before).len(),
{
    lemma_finite(before);
    lemma_finite(more.difference(before));
    assert(after =~= before + more.difference(before));
    assert(before.disjoint(more.difference(before)));
    vstd::set_lib::lemma_set_disjoint_lens(before, more.difference(before));
}

/// Where a map grew inside `more` and `more` still holds an `x` that the map lacks,
/// `more` holds more new objects than the map gained.
pub proof fn lemma_short(before: Set<usize>, after: Set<usize>, more: Set<usize>, x: usize)
    requires
        before.subset_of(after),
        forall|k: usize| after.contains(k) && !before.contains(k) ==> more.contains(k),
        more.contains(x),
        !after.contains(x),
    ensures
        more.difference(before).len() > after.len() - before.len(),
{
    let gained = after.difference(before);
    lemma_finite(before);
    lemma_finite(gained);
    lemma_finite(more.difference(before));
    assert(after =~= before + gained);
    assert(before.disjoint(gained));
    vstd::set_lib::lemma_set_disjoint_lens(before, gained);
    assert(gained.insert(x).subset_of(more.difference(before)));
    vstd::set_lib::lemma_len_subset(gained.insert(x), more.difference(before));
}

/// `large` maps every key of `small`, and to the same value.
pub open spec fn extends(small: Map<usize, usize>, large: Map<usize, usize>) -> bool {
    forall|k: usize| #[trigger] small.dom().contains(k) ==> large.dom().contains(k) && large[k] == small[k]
}

/// The map and the table only grew, by one new object for each new key, which is
/// mapped to a new object, and the pages are the same.
pub open spec fn kept(
    m0: Map<usize, usize>,
    d0: DocumentView,
    m1: Map<usize, usize>,
    d1: DocumentView,
) -> bool {
    &&& extends(m0, m1)
    &&& m1.dom().finite()
    &&& d1.pages == d0.pages
    &&& d1.objects.len() >= d0.objects.len()
    &&& forall|i: int| 0 <= i < d0.objects.len() ==> #[trigger] d1.objects[i] == d0.objects[i]
    &&& d1.objects.len() - d0.objects.len() == m1.dom().len() - m0.dom().len()
    &&& forall|k: usize| #[trigger]
        m1.dom().contains(k) && !m0.dom().contains(k) ==> m1[k] >= d0.objects.len()
}

/// What holds between the state before and after any run of copying, however it ended:
/// the map and the table only grow, one new object for each new key, and every new
/// key is an object that `id` leads to.
pub open spec fn grown(
    src: DocumentView,
    id: usize,
    m0: Map<usize, usize>,
    d0: DocumentView,
    m1: Map<usize, usize>,
    d1: DocumentView,
) -> bool {
    &&& kept(m0, d0, m1, d1)
    &&& forall|k: usize| #[trigger]
        m1.dom().contains(k) && !m0.dom().contains(k) ==> k < src.objects.len() && reaches(
            src,
            id,
            k,
        )
}

/// Growth from `id` and then from an object that `id` refers to is growth from `id`.
pub proof fn lemma_grown_then(
    src: DocumentView,
    id: usize,
    r: usize,
    m0: Map<usize, usize>,
    d0: DocumentView,
    m1: Map<usize, usize>,
    d1: DocumentView,
    m2: Map<usize, usize>,
    d2: DocumentView,
)
    requires
        grown(src, id, m0, d0, m1, d1),
        grown(src, r, m1, d1, m2, d2),
        refers(src, id, r),
    ensures
        grown(src, id, m0, d0, m2, d2),
{
    assert forall|i: int| 0 <= i < d0.objects.len() implies #[trigger] d2.objects[i]
        == d0.objects[i] by {
        assert(d1.objects[i] == d0.objects[i]);
    }
    assert forall|k: usize| #[trigger] m2.dom().contains(k) && !m0.dom().contains(k) implies k
        < src.objects.len() && reaches(src, id, k) by {
        if !m1.dom().contains(k) {
            lemma_reaches_step(src, id, r, k);
        }
    }
}

impl GraftMap {
    /// The number of objects that the destination held when the map was made.
    pub closed spec fn base(&self) -> usize {
        self.base
    }

    /// The map was made for `dest` and has only been used with `src` and `dest`: every
    /// mapped object of `src` has its copy in `dest`, with all that it refers to.
    pub open spec fn wf(&self, src: &Document, dest: &Document) -> bool {
        copies(src@, dest@, self@, self.base() as int, Set::empty())
    }

    /// A map for copying into `dest`, with nothing copied yet.
    pub fn new(dest: &Document) -> (r: GraftMap)
        ensures
            r@ == Map::<usize, usize>::empty(),
            r.base() == dest@.objects.len(),
            forall|src: &Document| r.wf(src, dest),
    {
        GraftMap { map: HashMap::new(), base: dest.object_count() }
    }

    /// How many objects have been copied.
    pub fn len(&self) -> (r: usize)
        ensures
            r == self@.dom().len(),
    {
        self.map.len()
    }

    /// The copy of the object `id`, if it has been copied.
    pub fn get(&self, id: usize) -> (r: Option<usize>)
        ensures
            r == if self@.dom().contains(id) { Some(self@[id]) } else { None },
    {
        match self.map.get(&id) {
            Some(d) => Some(*d),
            None => None,
        }
    }

    /// Copies the object `id` of `src` into `dest`, with every object that it leads
    /// to, and returns the number of the copy. An object that was copied before is
    /// not copied again: its copy is returned and nothing changes.
    ///
    /// Succeeds unless a reference reached from `id` lacks its object, or `dest`
    /// cannot hold the objects that are still to be copied.
    pub fn graft_object(&mut self, dest: &mut Document, src: &Document, id: usize) -> (r: Result<
        usize,
        GraftError,
    >)
        requires
            old(dest).wf(),
            old(self).wf(src, old(dest)),
        ensures
            final(dest).wf(),
            final(self).base() == old(self).base(),
            grown(src@, id, old(self)@, old(dest)@, final(self)@, final(dest)@),
            match r {
                Ok(d) => {
                    &&& sound_from(src@, id)
                    &&& final(self).wf(src, final(dest))
                    &&& final(self)@.dom() == old(self)@.dom().union(reachable(src@, id))
                    &&& final(self)@.dom().contains(id)
                    &&& final(self)@[id] == d
                    &&& !old(self)@.dom().contains(id) ==> d == old(dest)@.objects.len()
                    &&& final(dest)@.objects.len() == old(dest)@.objects.len() + still_to_copy(
                        src@,
                        id,
                        old(self)@,
                    )
                },
                Err(GraftError::Dangling(x)) => reaches(src@, id, x) && x >= src@.objects.len(),
                Err(GraftError::Full) => old(dest)@.objects.len() + still_to_copy(
                    src@,
                    id,
                    old(self)@,
                ) > MAX_OBJECTS,
            },
            r is Ok <==> sound_from(src@, id) && old(dest)@.objects.len() + still_to_copy(
                src@,
                id,
                old(self)@,
            ) <= MAX_OBJECTS,
            old(self)@.dom().contains(id) ==> r == Ok::<usize, GraftError>(old(self)@[id])
                && final(self)@ == old(self)@ && final(dest)@ == old(dest)@,
    {
        let ghost m0 = self@;
        let ghost d0 = dest@;
        let r = self.graft_rec(dest, src, id, Ghost(Set::empty()));
        proof {
            let m1 = self@;
            let d1 = dest@;
            let reach = reachable(src@, id);
            if m0.dom().contains(id) {
                assert forall|x: usize| #[trigger] reaches(src@, id, x) implies x
                    < src@.objects.len() && m0.dom().contains(x) by {
                    lemma_closed(src@, d0, m0, self.base() as int, id, x);
                }
                assert(reach.difference(m0.dom()) =~= Set::empty());
            }
            match r {
                Ok(d) => {
                    assert forall|x: usize| #[trigger] reaches(src@, id, x) implies x
                        < src@.objects.len() && m1.dom().contains(x) by {
                        lemma_closed(src@, d1, m1, self.base() as int, id, x);
                    }
                    assert(m1.dom() =~= m0.dom().union(reach));
                    lemma_gain(m0.dom(), m1.dom(), reach);
                    if m0.dom().contains(id) {
                        assert(m1 =~= m0);
                        assert(d1.objects =~= d0.objects);
                    }
                },
                Err(GraftError::Dangling(x)) => {},
                Err(GraftError::Full) => {
                    let x = choose|x: usize|
                        x < src@.objects.len() && #[trigger] reaches(src@, id, x)
                            && !m1.dom().contains(x);
                    lemma_short(m0.dom(), m1.dom(), reach, x);
                },
            }
        }
        r
    }

    /// Copies a value of `src` for use in `dest`: a value written in place as it is,
    /// a reference as a reference to the copy of its object.
    pub fn graft(&mut self, dest: &mut Document, src: &Document, value: &Slot) -> (r: Result<
        Slot,
        GraftError,
    >)
        requires
            old(dest).wf(),
            old(self).wf(src, old(dest)),
        ensures
            final(dest).wf(),
            final(self).base() == old(self).base(),
            match value@ {
                SlotView::Inline(bytes) => {
                    &&& r is Ok
                    &&& r->Ok_0@ == value@
                    &&& final(self)@ == old(self)@
                    &&& final(dest)@ == old(dest)@
                },
                SlotView::Ref(id) => {
                    &&& grown(src@, id, old(self)@, old(dest)@, final(self)@, final(dest)@)
                    &&& match r {
                        Ok(copy) => {
                            &&& sound_from(src@, id)
                            &&& final(self).wf(src, final(dest))
                            &&& final(self)@.dom() == old(self)@.dom().union(reachable(src@, id))
                            &&& slot_copied(value@, copy@, final(self)@)
                            &&& final(dest)@.objects.len() == old(dest)@.objects.len() + still_to_copy(
                        src@,
                        id,
                        old(self)@,
                    )
                        },
                        Err(GraftError::Dangling(x)) => reaches(src@, id, x) && x
                            >= src@.objects.len(),
                        Err(GraftError::Full) => old(dest)@.objects.len() + still_to_copy(
                    src@,
                    id,
                    old(self)@,
                ) > MAX_OBJECTS,
                    }
                },
            },
    {
        match value {
            Slot::Inline(bytes) => Ok(Slot::Inline(copy_bytes(bytes))),
            Slot::Ref(id) => {
                match self.graft_object(dest, src, *id) {
                    Ok(d) => {
                        proof {
                            lemma_reaches_self(src@, *id);
                        }
                        Ok(Slot::Ref(d))
                    },
                    Err(e) => Err(e),
                }
            },
        }
    }

    /// Copies the object `id` while the objects of `pending` are being copied: their
    /// numbers are taken and mapped, their entries not yet written.
    fn graft_rec(
        &mut self,
        dest: &mut Document,
        src: &Document,
        id: usize,
        Ghost(pending): Ghost<Set<usize>>,
    ) -> (r: Result<usize, GraftError>)
        requires
            old(dest).wf(),
            copies(src@, old(dest)@, old(self)@, old(self).base() as int, pending),
        ensures
            final(dest).wf(),
            final(self).base() == old(self).base(),
            grown(src@, id, old(self)@, old(dest)@, final(self)@, final(dest)@),
            match r {
                Ok(d) => {
                    &&& copies(src@, final(dest)@, final(self)@, final(self).base() as int, pending)
                    &&& final(self)@.dom().contains(id)
                    &&& final(self)@[id] == d
                    &&& !old(self)@.dom().contains(id) ==> d == old(dest)@.objects.len()
                },
                Err(GraftError::Dangling(x)) => reaches(src@, id, x) && x >= src@.objects.len(),
                Err(GraftError::Full) => {
                    &&& final(dest)@.objects.len() == MAX_OBJECTS
                    &&& exists|x: usize|
                        x < src@.objects.len() && #[trigger] reaches(src@, id, x)
                            && !final(self)@.dom().contains(x)
                },
            },
        decreases MAX_OBJECTS - old(dest)@.objects.len(),
    {
        let ghost m0 = self@;
        let ghost d0 = dest@;
        let ghost base = self.base() as int;
        proof {
            lemma_reaches_self(src@, id);
        }
        let source = match src.object(id) {
            Some(object) => object,
            None => {
                return Err(GraftError::Dangling(id));
            },
        };
        match self.map.get(&id) {
            Some(d) => {
                return Ok(*d);
            },
            None => {},
        }
        let d: usize = match dest.add_object(IndirectObject::new()) {
            Ok(d) => d,
            Err(_) => {
                return Err(GraftError::Full);
            },
        };
        self.map.insert(id, d);
        let ghost busy = pending.insert(id);
        proof {
            assert(self@ == m0.insert(id, d));
            assert forall|s: usize| #[trigger]
                self@.dom().contains(s) && !busy.contains(s) implies object_copied(
                src@.objects[s as int],
                dest@.objects[self@[s] as int],
                self@,
            ) by {
                assert(m0.dom().contains(s));
                assert(dest@.objects[m0[s] as int] == d0.objects[m0[s] as int]);
            }
        }
        let mut entries: Vec<Entry> = Vec::new();
        let mut i: usize = 0;
        while i < source.entries.len()
            invariant
                i <= source.entries@.len(),
                m0 == old(self)@,
                d0 == old(dest)@,
                base == old(self).base(),
                source@ == src@.objects[id as int],
                id < src@.objects.len(),
                dest.wf(),
                self.base() == base,
                busy == pending.insert(id),
                !m0.dom().contains(id),
                copies(src@, dest@, self@, base, busy),
                self@.dom().contains(id),
                self@[id] == d,
                d == d0.objects.len(),
                d0.objects.len() < dest@.objects.len(),
                grown(src@, id, m0, d0, self@, dest@),
                entries_copied(source@.entries.take(i as int), crate::document::entry_views(entries@), self@),
            decreases source.entries@.len() - i,
        {
            let ghost m1 = self@;
            let ghost d1 = dest@;
            let entry = &source.entries[i];
            assert(entry@ == source@.entries[i as int]);
            let value = match &entry.value {
                Slot::Inline(bytes) => Slot::Inline(copy_bytes(bytes)),
                Slot::Ref(r) => {
                    assert(refers(src@, id, *r));
                    match self.graft_rec(dest, src, *r, Ghost(busy)) {
                        Ok(t) => Slot::Ref(t),
                        Err(e) => {
                            proof {
                                match e {
                                    GraftError::Dangling(x) => {
                                        lemma_reaches_step(src@, id, *r, x);
                                    },
                                    GraftError::Full => {
                                        let x = choose|x: usize|
                                            x < src@.objects.len() && #[trigger] reaches(
                                                src@,
                                                *r,
                                                x,
                                            ) && !self@.dom().contains(x);
                                        lemma_reaches_step(src@, id, *r, x);
                                    },
                                }
                                lemma_grown_then(src@, id, *r, m0, d0, m1, d1, self@, dest@);
                            }
                            return Err(e);
                        },
                    }
                },
            };
            proof {
                match entry.value {
                    Slot::Ref(r) => {
                        lemma_grown_then(src@, id, r, m0, d0, m1, d1, self@, dest@);
                    },
                    Slot::Inline(_) => {},
                }
            }
            let ghost before = crate::document::entry_views(entries@);
            entries.push(Entry { key: entry.key.clone(), value });
            proof {
                let after = crate::document::entry_views(entries@);
                let wanted = source@.entries.take(i + 1);
                assert forall|j: int| 0 <= j < wanted.len() implies (#[trigger] after[j]).key
                    == wanted[j].key && slot_copied(wanted[j].value, after[j].value, self@) by {
                    if j < i {
                        assert(after[j] == before[j]);
                        assert(wanted[j] == source@.entries.take(i as int)[j]);
                    }
                }
            }
            i += 1;
        }
        let stream = copy_bytes(&source.stream);
        let ghost d2 = dest@;
        let copy = IndirectObject { kind: source.kind, parent: None, entries, stream };
        proof {
            assert(source@.entries.take(i as int) =~= source@.entries);
        }
        dest.replace_object(d, copy);
        proof {
            assert forall|s: usize| #[trigger]
                self@.dom().contains(s) && !pending.contains(s) implies object_copied(
                src@.objects[s as int],
                dest@.objects[self@[s] as int],
                self@,
            ) by {
                if s != id {
                    assert(busy.contains(s) == pending.contains(s));
                    assert(self@[s] != d);
                }
            }
        }
        Ok(d)
    }
}

} // verus!
