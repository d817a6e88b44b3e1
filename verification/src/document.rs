//! A document as a table of objects and a sequence of pages.

use vstd::prelude::*;

verus! {

/// The most objects that a document can hold.
pub const MAX_OBJECTS: usize = 8388607;

/// The value of an entry: either written in place, or a reference to an object of
/// the same document by its number.
#[derive(Debug, Clone, PartialEq, Eq)]
pub enum Slot {
    Inline(Vec<u8>),
    Ref(usize),
}

/// A named value of an object.
#[derive(Debug, Clone, PartialEq, Eq)]
pub struct Entry {
    pub key: String,
    pub value: Slot,
}

/// What sort of value an object is.
#[derive(Debug, Clone, Copy, PartialEq, Eq)]
pub enum ObjectKind {
    /// Named entries.
    Dictionary,
    /// Entries in a row; their keys do not count.
    Array,
    /// Named entries and a stream of bytes.
    Stream,
    /// A single value: that of its first entry.
    Value,
}

/// An object of a document's table. `parent` is the node of the page tree above
/// it, for the objects that are part of that tree.
#[derive(Debug, Clone, PartialEq, Eq)]
pub struct IndirectObject {
    pub kind: ObjectKind,
    pub parent: Option<usize>,
    pub entries: Vec<Entry>,
    pub stream: Vec<u8>,
}

/// A document: its objects, each known by its index in the table, and the objects
/// that are its pages, in page order.
#[derive(Debug, Clone, PartialEq, Eq)]
pub struct Document {
    objects: Vec<IndirectObject>,
    pages: Vec<usize>,
}

pub enum SlotView {
    Inline(Seq<u8>),
    Ref(usize),
}

pub struct EntryView {
    pub key: Seq<char>,
    pub value: SlotView,
}

pub struct ObjectView {
    pub kind: ObjectKind,
    pub parent: Option<usize>,
    pub entries: Seq<EntryView>,
    pub stream: Seq<u8>,
}

pub struct DocumentView {
    pub objects: Seq<ObjectView>,
    pub pages: Seq<usize>,
}

/// Why a document refused a change.
#[derive(Debug, PartialEq, Eq)]
pub enum DocumentError {
    /// The table holds `MAX_OBJECTS` objects already.
    Full,
    /// The object names a parent that the table does not hold.
    NoSuchParent,
    /// The table holds no object of that number.
    NoSuchObject,
}

impl View for Slot {
    type V = SlotView;

    open spec fn view(&self) -> SlotView {
        match self {
            Slot::Inline(bytes) => SlotView::Inline(bytes@),
            Slot::Ref(id) => SlotView::Ref(*id),
        }
    }
}

impl View for Entry {
    type V = EntryView;

    open spec fn view(&self) -> EntryView {
        EntryView { key: self.key@, value: self.value@ }
    }
}

/// The views of `entries`, in order.
pub open spec fn entry_views(entries: Seq<Entry>) -> Seq<EntryView> {
    Seq::new(entries.len(), |i: int| entries[i]@)
}

impl View for IndirectObject {
    type V = ObjectView;

    open spec fn view(&self) -> ObjectView {
        ObjectView {
            kind: self.kind,
            parent: self.parent,
            entries: entry_views(self.entries@),
            stream: self.stream@,
        }
    }
}

impl View for Document {
    type V = DocumentView;

    closed spec fn view(&self) -> DocumentView {
        DocumentView {
            objects: Seq::new(self.objects@.len(), |i: int| self.objects@[i]@),
            pages: self.pages@,
        }
    }
}

/// The value of the first entry of `entries` whose key is `key`.
pub open spec fn lookup(entries: Seq<EntryView>, key: Seq<char>) -> Option<SlotView>
    decreases entries.len(),
{
    if entries.len() == 0 {
        None
    } else if entries[0].key == key {
        Some(entries[0].value)
    } else {
        lookup(entries.drop_first(), key)
    }
}

/// The value that the object `id` has for `key`, by itself or from the nearest
/// node above it in the page tree that has one.
pub open spec fn inherited(objects: Seq<ObjectView>, id: int, key: Seq<char>) -> Option<SlotView>
    decreases id,
{
    if id < 0 || id >= objects.len() {
        None
    } else {
        match lookup(objects[id].entries, key) {
            Some(value) => Some(value),
            None => match objects[id].parent {
                Some(p) => if p < id {
                    inherited(objects, p as int, key)
                } else {
                    None
                },
                None => None,
            },
        }
    }
}

impl DocumentView {
    /// The table is within its limit, every parent was in the table before its
    /// child, and every page is an object of the table.
    pub open spec fn wf(self) -> bool {
        &&& self.objects.len() <= MAX_OBJECTS
        &&& forall|i: int|
            0 <= i < self.objects.len() ==> match (#[trigger] self.objects[i]).parent {
                Some(p) => p < i,
                None => true,
            }
        &&& forall|j: int| 0 <= j < self.pages.len() ==> (#[trigger] self.pages[j]) < self.objects.len()
    }
}

/// A copy of `bytes`.
pub fn copy_bytes(bytes: &Vec<u8>) -> (r: Vec<u8>)
    ensures
        r@ == bytes@,
{
    let mut r: Vec<u8> = Vec::new();
    let mut i: usize = 0;
    while i < bytes.len()
        invariant
            i <= bytes@.len(),
            r@ == bytes@.take(i as int),
        decreases bytes@.len() - i,
    {
        r.push(bytes[i]);
        proof {
            assert(bytes@.take(i as int).push(bytes@[i as int]) =~= bytes@.take(i + 1));
        }
        i += 1;
    }
    proof {
        assert(bytes@.take(i as int) =~= bytes@);
    }
    r
}

impl Slot {
    /// A copy of this value.
    pub fn copy(&self) -> (r: Slot)
        ensures
            r@ == self@,
    {
        match self {
            Slot::Inline(bytes) => Slot::Inline(copy_bytes(bytes)),
            Slot::Ref(id) => Slot::Ref(*id),
        }
    }
}

impl IndirectObject {
    /// A dictionary without parent, entries or stream.
    pub fn new() -> (r: IndirectObject)
        ensures
            r@ == (ObjectView {
                kind: ObjectKind::Dictionary,
                parent: None,
                entries: Seq::empty(),
                stream: Seq::empty(),
            }),
    {
        let r = IndirectObject {
            kind: ObjectKind::Dictionary,
            parent: None,
            entries: Vec::new(),
            stream: Vec::new(),
        };
        assert(r@.entries =~= Seq::empty());
        r
    }

    /// The value of the first entry whose key is `key`.
    pub fn get(&self, key: &str) -> (r: Option<&Slot>)
        ensures
            match r {
                Some(slot) => lookup(self@.entries, key@) == Some(slot@),
                None => lookup(self@.entries, key@) is None,
            },
    {
        let wanted = String::from_str(key);
        let mut i: usize = 0;
        assert(self@.entries.skip(0) =~= self@.entries);
        while i < self.entries.len()
            invariant
                i <= self.entries@.len(),
                wanted@ == key@,
                lookup(self@.entries, key@) == lookup(self@.entries.skip(i as int), key@),
            decreases self.entries@.len() - i,
        {
            proof {
                assert(self@.entries.skip(i as int).drop_first() =~= self@.entries.skip(i + 1));
            }
            if self.entries[i].key == wanted {
                return Some(&self.entries[i].value);
            }
            i += 1;
        }
        None
    }

    /// Puts the entry `key`, `value` at the end of the object.
    pub fn push_entry(&mut self, key: &str, value: Slot)
        ensures
            final(self)@ == (ObjectView {
                entries: old(self)@.entries.push(EntryView { key: key@, value: value@ }),
                ..old(self)@
            }),
    {
        self.entries.push(Entry { key: String::from_str(key), value });
        assert(final(self)@.entries =~= old(self)@.entries.push(
            EntryView { key: key@, value: value@ },
        ));
    }
}

impl Document {
    /// The document's view is well formed.
    pub open spec fn wf(&self) -> bool {
        self@.wf()
    }

    /// A document without objects or pages.
    pub fn new() -> (r: Document)
        ensures
            r@.objects.len() == 0,
            r@.pages.len() == 0,
            r.wf(),
    {
        Document { objects: Vec::new(), pages: Vec::new() }
    }

    /// How many objects the table holds.
    pub fn object_count(&self) -> (r: usize)
        ensures
            r == self@.objects.len(),
    {
        self.objects.len()
    }

    /// How many pages the document has.
    pub fn page_count(&self) -> (r: usize)
        ensures
            r == self@.pages.len(),
    {
        self.pages.len()
    }

    /// The number of the object that is page `i`, counted from 0.
    pub fn find_page(&self, i: usize) -> (r: Option<usize>)
        ensures
            r == if i < self@.pages.len() { Some(self@.pages[i as int]) } else { None },
    {
        if i < self.pages.len() {
            Some(self.pages[i])
        } else {
            None
        }
    }

    /// The object of number `id`.
    pub fn object(&self, id: usize) -> (r: Option<&IndirectObject>)
        ensures
            match r {
                Some(object) => id < self@.objects.len() && object@ == self@.objects[id as int],
                None => id >= self@.objects.len(),
            },
    {
        if id < self.objects.len() {
            Some(&self.objects[id])
        } else {
            None
        }
    }

    /// Puts `object` into the table and returns its number, the count of objects
    /// before. Refused where the table is full or the object's parent is not in it.
    pub fn add_object(&mut self, object: IndirectObject) -> (r: Result<usize, DocumentError>)
        requires
            old(self).wf(),
        ensures
            final(self).wf(),
            match r {
                Ok(id) => {
                    &&& id == old(self)@.objects.len()
                    &&& final(self)@.objects == old(self)@.objects.push(object@)
                    &&& final(self)@.pages == old(self)@.pages
                },
                Err(e) => {
                    &&& final(self)@ == old(self)@
                    &&& e == if old(self)@.objects.len() >= MAX_OBJECTS {
                        DocumentError::Full
                    } else {
                        DocumentError::NoSuchParent
                    }
                },
            },
            r is Err <==> old(self)@.objects.len() >= MAX_OBJECTS || match object.parent {
                Some(p) => p >= old(self)@.objects.len(),
                None => false,
            },
    {
        if self.objects.len() >= MAX_OBJECTS {
            return Err(DocumentError::Full);
        }
        match object.parent {
            Some(p) => {
                if p >= self.objects.len() {
                    return Err(DocumentError::NoSuchParent);
                }
            },
            None => {},
        }
        let id = self.objects.len();
        self.objects.push(object);
        proof {
            let before = old(self)@;
            let after = final(self)@;
            assert(after.objects =~= before.objects.push(object@));
            assert forall|i: int| 0 <= i < after.objects.len() implies match (
            #[trigger] after.objects[i]).parent {
                Some(p) => p < i,
                None => true,
            } by {
                if i < before.objects.len() {
                    assert(after.objects[i] == before.objects[i]);
                }
            }
            assert forall|j: int| 0 <= j < after.pages.len() implies (#[trigger] after.pages[j])
                < after.objects.len() by {
                assert(after.pages[j] == before.pages[j]);
            }
        }
        Ok(id)
    }

    /// Makes the object `id` the last page. Refused where the table holds no such
    /// object.
    pub fn append_page(&mut self, id: usize) -> (r: Result<(), DocumentError>)
        requires
            old(self).wf(),
        ensures
            final(self).wf(),
            match r {
                Ok(_) => {
                    &&& id < old(self)@.objects.len()
                    &&& final(self)@.objects == old(self)@.objects
                    &&& final(self)@.pages == old(self)@.pages.push(id)
                },
                Err(e) => {
                    &&& id >= old(self)@.objects.len()
                    &&& e == DocumentError::NoSuchObject
                    &&& final(self)@ == old(self)@
                },
            },
    {
        if id >= self.objects.len() {
            return Err(DocumentError::NoSuchObject);
        }
        self.pages.push(id);
        proof {
            let before = old(self)@;
            let after = final(self)@;
            assert(after.objects =~= before.objects);
            assert forall|j: int| 0 <= j < after.pages.len() implies (#[trigger] after.pages[j])
                < after.objects.len() by {
                if j < before.pages.len() {
                    assert(after.pages[j] == before.pages[j]);
                }
            }
        }
        Ok(())
    }

    /// The value that the object `id` has for `key`, by itself or from the nearest
    /// node above it in the page tree that has one.
    pub fn get_inheritable(&self, id: usize, key: &str) -> (r: Option<&Slot>)
        ensures
            match r {
                Some(slot) => inherited(self@.objects, id as int, key@) == Some(slot@),
                None => inherited(self@.objects, id as int, key@) is None,
            },
    {
        let mut cur: usize = id;
        loop
            invariant
                inherited(self@.objects, id as int, key@) == inherited(
                    self@.objects,
                    cur as int,
                    key@,
                ),
            decreases cur,
        {
            if cur >= self.objects.len() {
                return None;
            }
            let object = &self.objects[cur];
            assert(object@ == self@.objects[cur as int]);
            match object.get(key) {
                Some(slot) => {
                    return Some(slot);
                },
                None => {},
            }
            match object.parent {
                Some(p) => {
                    if p < cur {
                        cur = p;
                    } else {
                        return None;
                    }
                },
                None => {
                    return None;
                },
            }
        }
    }

    /// Whether the document is well formed.
    pub fn check(&self) -> (r: bool)
        ensures
            r == self.wf(),
    {
        if self.objects.len() > MAX_OBJECTS {
            return false;
        }
        let mut i: usize = 0;
        while i < self.objects.len()
            invariant
                i <= self.objects@.len(),
                forall|a: int|
                    0 <= a < i ==> match (#[trigger] self@.objects[a]).parent {
                        Some(p) => p < a,
                        None => true,
                    },
            decreases self.objects@.len() - i,
        {
            assert(self@.objects[i as int] == self.objects@[i as int]@);
            match self.objects[i].parent {
                Some(p) => {
                    if p >= i {
                        return false;
                    }
                },
                None => {},
            }
            i += 1;
        }
        let mut j: usize = 0;
        while j < self.pages.len()
            invariant
                j <= self.pages@.len(),
                forall|a: int| 0 <= a < j ==> (#[trigger] self@.pages[a]) < self@.objects.len(),
            decreases self.pages@.len() - j,
        {
            if self.pages[j] >= self.objects.len() {
                assert(!(self@.pages[j as int] < self@.objects.len()));
                return false;
            }
            j += 1;
        }
        true
    }

    /// Puts `object`, which has no parent, in the place of the object `id`.
    pub(crate) fn replace_object(&mut self, id: usize, object: IndirectObject)
        requires
            old(self).wf(),
            id < old(self)@.objects.len(),
            object.parent is None,
        ensures
            final(self).wf(),
            final(self)@.objects == old(self)@.objects.update(id as int, object@),
            final(self)@.pages == old(self)@.pages,
    {
        self.objects.set(id, object);
        proof {
            let before = old(self)@;
            let after = final(self)@;
            assert(after.objects =~= before.objects.update(id as int, object@));
            assert forall|i: int| 0 <= i < after.objects.len() implies match (
            #[trigger] after.objects[i]).parent {
                Some(p) => p < i,
                None => true,
            } by {
                if i != id {
                    assert(after.objects[i] == before.objects[i]);
                }
            }
            assert forall|j: int| 0 <= j < after.pages.len() implies (#[trigger] after.pages[j])
                < after.objects.len() by {
                assert(after.pages[j] == before.pages[j]);
            }
        }
    }
}

} // verus!
