use fatpdf::document::{ObjectKind, Document, Entry, IndirectObject, Slot, MAX_OBJECTS};
use fatpdf::graft::{GraftError, GraftMap};

fn inline(s: &str) -> Slot {
    Slot::Inline(s.as_bytes().to_vec())
}

fn object(entries: &[(&str, Slot)], stream: &[u8]) -> IndirectObject {
    IndirectObject {
        kind: ObjectKind::Dictionary,
        parent: None,
        entries: entries
            .iter()
            .map(|(k, v)| Entry { key: k.to_string(), value: v.clone() })
            .collect(),
        stream: stream.to_vec(),
    }
}

fn document(objects: Vec<IndirectObject>) -> Document {
    let mut doc = Document::new();
    for o in objects {
        doc.add_object(o).unwrap();
    }
    doc
}

/// 0: font; 1: resources -> 0; 2: contents A -> 1; 3: contents B -> 1, 3; 4: refers to 9.
fn source() -> Document {
    document(vec![
        object(&[("BaseFont", inline("/Helvetica"))], b""),
        object(&[("Font", Slot::Ref(0)), ("ProcSet", inline("[/PDF]"))], b""),
        object(&[("Resources", Slot::Ref(1))], b"BT ET"),
        object(&[("Resources", Slot::Ref(1)), ("Self", Slot::Ref(3))], b"q Q"),
        object(&[("Ok", Slot::Ref(0)), ("Lost", Slot::Ref(9))], b""),
    ])
}

#[test]
fn graft_copies_an_object_and_what_it_leads_to() {
    let src = source();
    let mut dest = document(vec![object(&[("Old", inline("1"))], b"old")]);
    let mut map = GraftMap::new(&dest);
    assert_eq!(map.graft_object(&mut dest, &src, 2), Ok(1));
    assert_eq!(dest.object_count(), 4);
    assert_eq!(dest.object(0), Some(&object(&[("Old", inline("1"))], b"old")));
    assert_eq!(dest.object(1), Some(&object(&[("Resources", Slot::Ref(2))], b"BT ET")));
    assert_eq!(
        dest.object(2),
        Some(&object(&[("Font", Slot::Ref(3)), ("ProcSet", inline("[/PDF]"))], b""))
    );
    assert_eq!(dest.object(3), Some(&object(&[("BaseFont", inline("/Helvetica"))], b"")));
    assert_eq!(map.len(), 3);
    assert_eq!(map.get(2), Some(1));
    assert_eq!(map.get(1), Some(2));
    assert_eq!(map.get(0), Some(3));
    assert_eq!(map.get(3), None);
    assert_eq!(src, source());
}

#[test]
fn graft_is_idempotent() {
    let src = source();
    let mut dest = Document::new();
    let mut map = GraftMap::new(&dest);
    let first = map.graft_object(&mut dest, &src, 2);
    let after_first = dest.clone();
    let second = map.graft_object(&mut dest, &src, 2);
    assert_eq!(first, Ok(0));
    assert_eq!(second, first);
    assert_eq!(dest, after_first);
    assert_eq!(map.len(), 3);
}

#[test]
fn graft_counts_distinct_objects_not_calls() {
    let src = source();
    let mut dest = Document::new();
    let mut map = GraftMap::new(&dest);
    assert_eq!(map.graft_object(&mut dest, &src, 1), Ok(0));
    assert_eq!(dest.object_count(), 2);
    assert_eq!(map.graft_object(&mut dest, &src, 2), Ok(2));
    assert_eq!(dest.object_count(), 3);
    assert_eq!(map.graft_object(&mut dest, &src, 0), Ok(1));
    assert_eq!(map.graft_object(&mut dest, &src, 1), Ok(0));
    assert_eq!(map.graft_object(&mut dest, &src, 3), Ok(3));
    assert_eq!(dest.object_count(), 4);
    assert_eq!(map.len(), 4);
}

#[test]
fn graft_keeps_what_is_shared_shared() {
    let src = source();
    let mut dest = Document::new();
    let mut map = GraftMap::new(&dest);
    let a = map.graft_object(&mut dest, &src, 2).unwrap();
    let b = map.graft_object(&mut dest, &src, 3).unwrap();
    let shared_a = dest.object(a).unwrap().get("Resources").cloned();
    let shared_b = dest.object(b).unwrap().get("Resources").cloned();
    assert_eq!(shared_a, Some(Slot::Ref(1)));
    assert_eq!(shared_a, shared_b);
}

#[test]
fn graft_follows_a_cycle_once() {
    let src = document(vec![
        object(&[("Next", Slot::Ref(1))], b"a"),
        object(&[("Next", Slot::Ref(2)), ("Me", Slot::Ref(1))], b"b"),
        object(&[("Next", Slot::Ref(0))], b"c"),
    ]);
    let mut dest = Document::new();
    let mut map = GraftMap::new(&dest);
    assert_eq!(map.graft_object(&mut dest, &src, 1), Ok(0));
    assert_eq!(dest.object_count(), 3);
    assert_eq!(dest.object(0), Some(&object(&[("Next", Slot::Ref(1)), ("Me", Slot::Ref(0))], b"b")));
    assert_eq!(dest.object(1), Some(&object(&[("Next", Slot::Ref(2))], b"c")));
    assert_eq!(dest.object(2), Some(&object(&[("Next", Slot::Ref(0))], b"a")));
}

#[test]
fn graft_drops_the_place_in_the_page_tree() {
    let mut src = Document::new();
    src.add_object(object(&[("Kids", inline("[]"))], b"")).unwrap();
    let mut child = object(&[("K", inline("v"))], b"");
    child.parent = Some(0);
    src.add_object(child).unwrap();
    let mut dest = Document::new();
    let mut map = GraftMap::new(&dest);
    assert_eq!(map.graft_object(&mut dest, &src, 1), Ok(0));
    assert_eq!(dest.object_count(), 1);
    assert_eq!(dest.object(0), Some(&object(&[("K", inline("v"))], b"")));
}

#[test]
fn graft_reports_a_dangling_reference() {
    let src = source();
    let mut dest = Document::new();
    let mut map = GraftMap::new(&dest);
    assert_eq!(map.graft_object(&mut dest, &src, 4), Err(GraftError::Dangling(9)));
    assert_eq!(map.graft_object(&mut dest, &src, 5), Err(GraftError::Dangling(5)));
}

#[test]
fn graft_of_a_value() {
    let src = source();
    let mut dest = Document::new();
    let mut map = GraftMap::new(&dest);
    assert_eq!(map.graft(&mut dest, &src, &inline("[0 0 1 1]")), Ok(inline("[0 0 1 1]")));
    assert_eq!(dest.object_count(), 0);
    assert_eq!(map.len(), 0);
    assert_eq!(map.graft(&mut dest, &src, &Slot::Ref(0)), Ok(Slot::Ref(0)));
    assert_eq!(map.graft(&mut dest, &src, &Slot::Ref(1)), Ok(Slot::Ref(1)));
    assert_eq!(dest.object(1), Some(&object(&[("Font", Slot::Ref(0)), ("ProcSet", inline("[/PDF]"))], b"")));
    assert_eq!(map.graft(&mut dest, &src, &Slot::Ref(9)), Err(GraftError::Dangling(9)));
}

#[test]
fn graft_into_a_full_table() {
    let src = source();
    let mut dest = Document::new();
    for _ in 0..MAX_OBJECTS - 2 {
        dest.add_object(IndirectObject::new()).unwrap();
    }
    let mut map = GraftMap::new(&dest);
    assert_eq!(map.graft_object(&mut dest, &src, 1), Ok(MAX_OBJECTS - 2));
    assert_eq!(dest.object_count(), MAX_OBJECTS);
    assert_eq!(map.graft_object(&mut dest, &src, 0), Ok(MAX_OBJECTS - 1));
    assert_eq!(map.graft_object(&mut dest, &src, 2), Err(GraftError::Full));
}

#[test]
fn graft_keeps_the_kind_of_an_object() {
    let mut src = Document::new();
    for kind in [ObjectKind::Value, ObjectKind::Stream, ObjectKind::Array, ObjectKind::Dictionary] {
        let mut o = object(&[("0", Slot::Ref(0)), ("1", inline("7"))], b"data");
        o.kind = kind;
        src.add_object(o).unwrap();
    }
    let mut dest = Document::new();
    let mut map = GraftMap::new(&dest);
    for id in [2, 1, 3, 0] {
        let copy = map.graft_object(&mut dest, &src, id).unwrap();
        let copied = dest.object(copy).unwrap();
        assert_eq!(copied.kind, src.object(id).unwrap().kind);
        assert_eq!(copied.stream, b"data".to_vec());
        assert_eq!(copied.entries[1], src.object(id).unwrap().entries[1]);
    }
    assert_eq!(dest.object_count(), 4);
    assert_eq!(map.get(0), Some(1));
    assert_eq!(dest.object(0).unwrap().get("0"), Some(&Slot::Ref(1)));
}
