use pdf_merge::merge::{check_leaves, merge, Document, MergeError};
use pdf_merge::object::{classify, same_bytes, Dictionary, Object, ObjectId, Role, StringFormat};

fn key(s: &str) -> Vec<u8> {
    s.as_bytes().to_vec()
}

fn name(s: &str) -> Object {
    Object::Name(key(s))
}

fn dict(entries: Vec<(&str, Object)>) -> Dictionary {
    Dictionary { entries: entries.into_iter().map(|(k, v)| (key(k), v)).collect() }
}

fn field<'a>(o: &'a Object, k: &str) -> Option<&'a Object> {
    match o {
        Object::Dictionary(d) => d.get(&key(k)),
        _ => None,
    }
}

fn id(n: u32) -> ObjectId {
    (n, 0)
}

/// A document whose objects are numbered from `base`: the catalog, the Pages
/// node, `n` pages, a font, and an outline root.
fn document(base: u32, n: u32) -> Document {
    let pages_id = id(base + 1);
    let font_id = id(base + 2 + n);
    let outlines_id = id(base + 3 + n);
    let kids: Vec<Object> = (0..n).map(|i| Object::Reference(id(base + 2 + i))).collect();
    let catalog = dict(vec![
        ("Type", name("Catalog")),
        ("Pages", Object::Reference(pages_id)),
        ("Outlines", Object::Reference(outlines_id)),
    ]);
    let pages = dict(vec![
        ("Type", name("Pages")),
        ("Kids", Object::Array(kids)),
        ("Count", Object::Integer(n as i64)),
    ]);
    let leaves: Vec<(ObjectId, Object)> = (0..n)
        .map(|i| {
            let page = dict(vec![
                ("Type", name("Page")),
                ("Parent", Object::Reference(pages_id)),
                ("Rotate", Object::Integer((base + i) as i64)),
            ]);
            (id(base + 2 + i), Object::Dictionary(page))
        })
        .collect();
    let font = dict(vec![("Type", name("Font")), ("BaseFont", name("Helvetica"))]);
    let outlines = dict(vec![("Type", name("Outlines")), ("Count", Object::Integer(0))]);
    Document {
        objects: vec![
            (id(base), Object::Dictionary(catalog)),
            (pages_id, Object::Dictionary(pages)),
            (font_id, Object::Dictionary(font)),
            (outlines_id, Object::Dictionary(outlines)),
        ],
        pages: leaves,
        root: Some(id(base)),
        max_id: base + 3 + n,
    }
}

fn all_ids(d: &Document) -> Vec<ObjectId> {
    d.objects.iter().chain(d.pages.iter()).map(|e| e.0).collect()
}

fn assert_ids_distinct(d: &Document) {
    let ids = all_ids(d);
    for i in 0..ids.len() {
        for j in i + 1..ids.len() {
            assert_ne!(ids[i], ids[j]);
        }
    }
}

#[test]
fn two_documents_merge_into_five_pages() {
    let a = document(1, 2);
    let b = document(a.max_id + 1, 3);
    let a_pages: Vec<ObjectId> = a.pages.iter().map(|e| e.0).collect();
    let b_pages: Vec<ObjectId> = b.pages.iter().map(|e| e.0).collect();
    let out = merge(vec![a, b]).unwrap();
    let expected: Vec<ObjectId> = a_pages.iter().chain(b_pages.iter()).cloned().collect();
    let got: Vec<ObjectId> = out.pages.iter().map(|e| e.0).collect();
    assert_eq!(got, expected);
    let n = out.objects.len();
    let (pages_id, pages_node) = &out.objects[n - 2];
    assert_eq!(*pages_id, id(2));
    assert_eq!(field(pages_node, "Count"), Some(&Object::Integer(5)));
    let kids: Vec<Object> = expected.iter().map(|i| Object::Reference(*i)).collect();
    assert_eq!(field(pages_node, "Kids"), Some(&Object::Array(kids)));
    for (_, page) in out.pages.iter() {
        assert_eq!(field(page, "Parent"), Some(&Object::Reference(id(2))));
    }
    assert_eq!(out.root, Some(id(1)));
    assert_eq!(out.objects[n - 1].0, id(1));
    assert_ids_distinct(&out);
}

#[test]
fn page_count_is_the_sum_of_the_inputs() {
    let a = document(1, 4);
    let b = document(a.max_id + 1, 0);
    let c = document(b.max_id + 1, 7);
    let out = merge(vec![a, b, c]).unwrap();
    assert_eq!(out.pages.len(), 11);
    let n = out.objects.len();
    assert_eq!(field(&out.objects[n - 2].1, "Count"), Some(&Object::Integer(11)));
}

#[test]
fn single_root_catalog_points_at_the_pages_node() {
    let a = document(1, 1);
    let b = document(a.max_id + 1, 2);
    let out = merge(vec![a, b]).unwrap();
    let n = out.objects.len();
    let catalogs: Vec<usize> =
        (0..n).filter(|i| classify(&out.objects[*i].1) == Role::Catalog).collect();
    let pages_nodes: Vec<usize> =
        (0..n).filter(|i| classify(&out.objects[*i].1) == Role::Pages).collect();
    assert_eq!(catalogs, vec![n - 1]);
    assert_eq!(pages_nodes, vec![n - 2]);
    let catalog = &out.objects[n - 1].1;
    assert_eq!(field(catalog, "Pages"), Some(&Object::Reference(out.objects[n - 2].0)));
    assert_eq!(field(catalog, "Outlines"), None);
    assert_eq!(out.root, Some(out.objects[n - 1].0));
}

#[test]
fn outlines_and_old_tree_nodes_are_dropped() {
    let a = document(1, 1);
    let b = document(a.max_id + 1, 1);
    let out = merge(vec![a, b]).unwrap();
    for (_, o) in out.objects.iter() {
        assert_ne!(classify(o), Role::Outline);
    }
    // Two fonts pass through, then the Pages node and the catalog.
    assert_eq!(out.objects.len(), 4);
    assert_eq!(out.objects[0].0, id(4));
    assert_eq!(out.objects[1].0, id(9));
    assert_eq!(out.max_id, 6);
}

#[test]
fn single_input_keeps_pages_and_content() {
    let a = document(1, 3);
    let copy = document(1, 3);
    let out = merge(vec![a]).unwrap();
    assert_eq!(out.pages.len(), 3);
    for (i, (pid, page)) in out.pages.iter().enumerate() {
        assert_eq!(*pid, copy.pages[i].0);
        assert_eq!(field(page, "Rotate"), field(&copy.pages[i].1, "Rotate"));
        assert_eq!(field(page, "Type"), Some(&name("Page")));
        assert_eq!(field(page, "Parent"), Some(&Object::Reference(id(2))));
    }
    assert_eq!(out.objects[0], copy.objects[2]);
}

#[test]
fn missing_catalog_root() {
    let mut a = document(1, 1);
    a.objects.remove(0);
    assert_eq!(merge(vec![a]).unwrap_err(), MergeError::MissingCatalogRoot);
}

#[test]
fn missing_pages_root() {
    let mut a = document(1, 1);
    a.objects.remove(1);
    assert_eq!(merge(vec![a]).unwrap_err(), MergeError::MissingPagesRoot);
}

#[test]
fn missing_both_roots_reports_pages_first() {
    let mut a = document(1, 1);
    a.objects.remove(1);
    a.objects.remove(0);
    assert_eq!(merge(vec![a]).unwrap_err(), MergeError::MissingPagesRoot);
}

#[test]
fn empty_input_is_an_error() {
    assert_eq!(merge(Vec::new()).unwrap_err(), MergeError::EmptyInput);
}

#[test]
fn first_pages_fields_win() {
    let mut a = document(1, 1);
    let mut b = document(a.max_id + 1, 1);
    if let Object::Dictionary(d) = &mut a.objects[1].1 {
        d.set(key("Resources"), name("First"));
    }
    if let Object::Dictionary(d) = &mut b.objects[1].1 {
        d.set(key("Resources"), name("Second"));
        d.set(key("MediaBox"), Object::Integer(612));
    }
    let out = merge(vec![a, b]).unwrap();
    let n = out.objects.len();
    let node = &out.objects[n - 2].1;
    assert_eq!(field(node, "Resources"), Some(&name("First")));
    assert_eq!(field(node, "MediaBox"), Some(&Object::Integer(612)));
    assert_eq!(field(node, "Type"), Some(&name("Pages")));
}

#[test]
fn catalog_keeps_first_id_and_last_fields() {
    let mut a = document(1, 1);
    let mut b = document(a.max_id + 1, 1);
    if let Object::Dictionary(d) = &mut a.objects[0].1 {
        d.set(key("Lang"), Object::String(key("en"), StringFormat::Literal));
    }
    if let Object::Dictionary(d) = &mut b.objects[0].1 {
        d.set(key("Lang"), Object::String(key("fr"), StringFormat::Literal));
    }
    let out = merge(vec![a, b]).unwrap();
    let n = out.objects.len();
    assert_eq!(out.objects[n - 1].0, id(1));
    assert_eq!(
        field(&out.objects[n - 1].1, "Lang"),
        Some(&Object::String(key("fr"), StringFormat::Literal))
    );
}

#[test]
fn dictionary_set_get_remove() {
    let mut d = Dictionary::new();
    assert_eq!(d.get(&key("A")), None);
    d.set(key("A"), Object::Integer(1));
    d.set(key("B"), Object::Boolean(true));
    d.set(key("A"), Object::Integer(2));
    assert_eq!(d.get(&key("A")), Some(&Object::Integer(2)));
    d.remove(&key("A"));
    assert_eq!(d.get(&key("A")), None);
    assert_eq!(d.get(&key("B")), Some(&Object::Boolean(true)));
    assert_eq!(d.entries.len(), 1);
}

#[test]
fn overlay_keeps_the_accumulated_value() {
    let base = dict(vec![("A", Object::Integer(1)), ("B", Object::Integer(2))]);
    let acc = dict(vec![("A", Object::Integer(9))]);
    let r = base.overlaid_with(acc);
    assert_eq!(r.get(&key("A")), Some(&Object::Integer(9)));
    assert_eq!(r.get(&key("B")), Some(&Object::Integer(2)));
}

#[test]
fn roles_are_read_from_the_type_name() {
    assert_eq!(classify(&Object::Dictionary(dict(vec![("Type", name("Catalog"))]))), Role::Catalog);
    assert_eq!(classify(&Object::Dictionary(dict(vec![("Type", name("Pages"))]))), Role::Pages);
    assert_eq!(classify(&Object::Dictionary(dict(vec![("Type", name("Page"))]))), Role::Page);
    assert_eq!(classify(&Object::Dictionary(dict(vec![("Type", name("Outline"))]))), Role::Outline);
    assert_eq!(classify(&Object::Dictionary(dict(vec![("Type", name("Outlines"))]))), Role::Outline);
    assert_eq!(classify(&Object::Dictionary(dict(vec![("Type", name("Font"))]))), Role::Other);
    assert_eq!(classify(&Object::Dictionary(dict(vec![("Kind", name("Page"))]))), Role::Other);
    assert_eq!(classify(&Object::Stream(dict(vec![("Type", name("Page"))]), vec![1, 2], true)), Role::Other);
    assert_eq!(classify(&Object::Integer(3)), Role::Other);
}

#[test]
fn leaves_must_be_dictionaries() {
    let a = document(1, 2);
    assert!(check_leaves(&vec![a]));
    let mut b = document(1, 2);
    b.pages[1].1 = Object::Null;
    assert!(!check_leaves(&vec![document(10, 1), b]));
}

#[test]
fn byte_strings_compare_by_content() {
    assert!(same_bytes(&key("Page"), &key("Page")));
    assert!(!same_bytes(&key("Page"), &key("Pages")));
    assert!(!same_bytes(&key("Page"), &key("Pagf")));
}
