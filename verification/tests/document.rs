use fatpdf::document::{ObjectKind, copy_bytes, Document, DocumentError, Entry, IndirectObject, Slot, MAX_OBJECTS};

fn inline(s: &str) -> Slot {
    Slot::Inline(s.as_bytes().to_vec())
}

fn object(parent: Option<usize>, entries: &[(&str, Slot)]) -> IndirectObject {
    IndirectObject {
        kind: ObjectKind::Dictionary,
        parent,
        entries: entries
            .iter()
            .map(|(k, v)| Entry { key: k.to_string(), value: v.clone() })
            .collect(),
        stream: Vec::new(),
    }
}

#[test]
fn new_document_is_empty() {
    let doc = Document::new();
    assert_eq!(doc.object_count(), 0);
    assert_eq!(doc.page_count(), 0);
    assert_eq!(doc.find_page(0), None);
    assert!(doc.object(0).is_none());
    assert!(doc.check());
}

#[test]
fn objects_are_numbered_in_order() {
    let mut doc = Document::new();
    assert_eq!(doc.add_object(object(None, &[("A", inline("1"))])), Ok(0));
    assert_eq!(doc.add_object(object(Some(0), &[])), Ok(1));
    assert_eq!(doc.add_object(object(Some(0), &[])), Ok(2));
    assert_eq!(doc.object_count(), 3);
    assert_eq!(doc.object(0), Some(&object(None, &[("A", inline("1"))])));
    assert_eq!(doc.object(2), Some(&object(Some(0), &[])));
    assert!(doc.object(3).is_none());
    assert!(doc.check());
}

#[test]
fn parent_must_be_in_the_table() {
    let mut doc = Document::new();
    assert_eq!(doc.add_object(object(Some(0), &[])), Err(DocumentError::NoSuchParent));
    assert_eq!(doc.object_count(), 0);
    assert_eq!(doc.add_object(object(None, &[])), Ok(0));
    assert_eq!(doc.add_object(object(Some(1), &[])), Err(DocumentError::NoSuchParent));
    assert_eq!(doc.add_object(object(Some(0), &[])), Ok(1));
}

#[test]
fn pages_are_appended() {
    let mut doc = Document::new();
    doc.add_object(object(None, &[])).unwrap();
    doc.add_object(object(None, &[])).unwrap();
    assert_eq!(doc.append_page(1), Ok(()));
    assert_eq!(doc.append_page(0), Ok(()));
    assert_eq!(doc.append_page(2), Err(DocumentError::NoSuchObject));
    assert_eq!(doc.page_count(), 2);
    assert_eq!(doc.find_page(0), Some(1));
    assert_eq!(doc.find_page(1), Some(0));
    assert_eq!(doc.find_page(2), None);
}

#[test]
fn first_entry_of_a_key_is_found() {
    let mut o = IndirectObject::new();
    assert_eq!(o.get("A"), None);
    o.push_entry("A", inline("1"));
    o.push_entry("B", Slot::Ref(4));
    o.push_entry("A", inline("2"));
    assert_eq!(o.get("A"), Some(&inline("1")));
    assert_eq!(o.get("B"), Some(&Slot::Ref(4)));
    assert_eq!(o.get("C"), None);
    assert_eq!(o.get("a"), None);
    assert_eq!(o.entries.len(), 3);
    assert_eq!(o.parent, None);
}

#[test]
fn values_are_inherited_from_the_nearest_ancestor() {
    let mut doc = Document::new();
    let root = doc
        .add_object(object(None, &[("MediaBox", inline("[0 0 10 10]")), ("Rotate", inline("90"))]))
        .unwrap();
    let mid = doc.add_object(object(Some(root), &[("Rotate", inline("180"))])).unwrap();
    let leaf = doc.add_object(object(Some(mid), &[("Contents", Slot::Ref(7))])).unwrap();
    assert_eq!(doc.get_inheritable(leaf, "Contents"), Some(&Slot::Ref(7)));
    assert_eq!(doc.get_inheritable(leaf, "Rotate"), Some(&inline("180")));
    assert_eq!(doc.get_inheritable(leaf, "MediaBox"), Some(&inline("[0 0 10 10]")));
    assert_eq!(doc.get_inheritable(leaf, "CropBox"), None);
    assert_eq!(doc.get_inheritable(mid, "Contents"), None);
    assert_eq!(doc.get_inheritable(root, "Rotate"), Some(&inline("90")));
    assert_eq!(doc.get_inheritable(3, "Rotate"), None);
}

#[test]
fn bytes_and_values_are_copied() {
    assert_eq!(copy_bytes(&vec![1, 2, 3]), vec![1, 2, 3]);
    assert_eq!(copy_bytes(&vec![]), Vec::<u8>::new());
    assert_eq!(inline("x").copy(), inline("x"));
    assert_eq!(Slot::Ref(3).copy(), Slot::Ref(3));
}

#[test]
fn a_full_table_takes_no_object() {
    let mut doc = Document::new();
    for _ in 0..MAX_OBJECTS {
        assert!(doc.add_object(IndirectObject::new()).is_ok());
    }
    assert_eq!(doc.object_count(), MAX_OBJECTS);
    assert_eq!(doc.add_object(IndirectObject::new()), Err(DocumentError::Full));
    assert_eq!(doc.add_object(object(Some(MAX_OBJECTS), &[])), Err(DocumentError::Full));
    assert_eq!(doc.object_count(), MAX_OBJECTS);
}
