use vstd::prelude::*;

use crate::object::{
    classify, count_key, count_key_bytes, kids_key, kids_key_bytes, outlines_name,
    outlines_name_bytes, overlay, pages_name, pages_name_bytes, parent_key, parent_key_bytes, role_of,
    Dictionary, Object, ObjectId, Role,
};

verus! {

/// One entry of an object table.
pub type Entry = (ObjectId, Object);

/// A document graph whose page tree has been enumerated.
///
/// `pages` holds the leaf pages in page-tree order; `objects` holds every
/// other indirect object. `root` is the trailer's root reference and `max_id`
/// the counter for fresh identifiers.
#[derive(Debug)]
pub struct Document {
    pub objects: Vec<Entry>,
    pub pages: Vec<Entry>,
    pub root: Option<ObjectId>,
    pub max_id: u32,
}

/// Why a merge produced no document.
#[derive(Clone, Copy, Debug, PartialEq, Eq, Structural)]
pub enum MergeError {
    EmptyInput,
    MissingPagesRoot,
    MissingCatalogRoot,
}

/// Every non-page object of the documents, document after document.
pub open spec fn all_objects(docs: Seq<Document>) -> Seq<Entry>
    decreases docs.len(),
{
    if docs.len() == 0 {
        Seq::empty()
    } else {
        all_objects(docs.drop_last()) + docs.last().objects@
    }
}

/// Every leaf page of the documents, document after document, each in its
/// page-tree order.
pub open spec fn all_pages(docs: Seq<Document>) -> Seq<Entry>
    decreases docs.len(),
{
    if docs.len() == 0 {
        Seq::empty()
    } else {
        all_pages(docs.drop_last()) + docs.last().pages@
    }
}

/// The sum of the documents' page counts.
pub open spec fn page_total(docs: Seq<Document>) -> int
    decreases docs.len(),
{
    if docs.len() == 0 {
        0
    } else {
        page_total(docs.drop_last()) + docs.last().pages@.len()
    }
}

/// The objects that pass into the merged document unchanged: those with no
/// page-tree role.
pub open spec fn kept(s: Seq<Entry>) -> Seq<Entry>
    decreases s.len(),
{
    if s.len() == 0 {
        s
    } else if role_of(s.last().1) == Role::Other {
        kept(s.drop_last()).push(s.last())
    } else {
        kept(s.drop_last())
    }
}

/// The identifier of the first object with role `r`.
pub open spec fn first_id(s: Seq<Entry>, r: Role) -> Option<ObjectId>
    decreases s.len(),
{
    if s.len() == 0 {
        None
    } else {
        match first_id(s.drop_last(), r) {
            Some(id) => Some(id),
            None => if role_of(s.last().1) == r {
                Some(s.last().0)
            } else {
                None
            },
        }
    }
}

/// The dictionary of the last catalog.
pub open spec fn last_catalog(s: Seq<Entry>) -> Option<Map<Seq<u8>, Object>>
    decreases s.len(),
{
    if s.len() == 0 {
        None
    } else if role_of(s.last().1) == Role::Catalog {
        Some(s.last().1.dict_of().unwrap()@)
    } else {
        last_catalog(s.drop_last())
    }
}

/// The Pages dictionaries merged in order, each earlier one keeping its keys
/// over the later ones.
pub open spec fn pages_fields(s: Seq<Entry>) -> Option<Map<Seq<u8>, Object>>
    decreases s.len(),
{
    if s.len() == 0 {
        None
    } else {
        let prev = pages_fields(s.drop_last());
        if role_of(s.last().1) == Role::Pages {
            let m = s.last().1.dict_of().unwrap()@;
            match prev {
                None => Some(m),
                Some(acc) => Some(overlay(m, acc)),
            }
        } else {
            prev
        }
    }
}

/// References to the given entries, in order.
pub open spec fn refs(l: Seq<Entry>) -> Seq<Object> {
    l.map_values(|e: Entry| Object::Reference(e.0))
}

/// `o` is the merged root Pages node: the merged fields, with `Count` and
/// `Kids` built from the leaf pages `l`.
pub open spec fn is_pages_node(o: Object, fields: Map<Seq<u8>, Object>, l: Seq<Entry>) -> bool {
    match o {
        Object::Dictionary(d) => {
            &&& d@.contains_key(kids_key())
            &&& d@.remove(kids_key()) == fields.insert(count_key(), Object::Integer(l.len() as i64)).remove(kids_key())
            &&& d@[kids_key()] matches Object::Array(v) && v@ == refs(l)
        },
        _ => false,
    }
}

/// `o` is the leaf page `page` hung under the root Pages node `pid`.
pub open spec fn is_reparented(o: Object, page: Object, pid: ObjectId) -> bool {
    match o {
        Object::Dictionary(d) => d@ == page.dict_of().unwrap()@.insert(parent_key(), Object::Reference(pid)),
        _ => false,
    }
}

/// The merged document of `docs` is `out`.
pub open spec fn merged_into(docs: Seq<Document>, out: Document) -> bool {
    let a = all_objects(docs);
    let l = all_pages(docs);
    let k = kept(a);
    let pid = first_id(a, Role::Pages).unwrap();
    let cid = first_id(a, Role::Catalog).unwrap();
    let n = out.objects@.len();
    &&& first_id(a, Role::Pages) is Some
    &&& first_id(a, Role::Catalog) is Some
    &&& n == k.len() + 2
    &&& out.objects@.subrange(0, k.len() as int) == k
    &&& out.objects@[n - 2].0 == pid
    &&& is_pages_node(out.objects@[n - 2].1, pages_fields(a).unwrap(), l)
    &&& out.objects@[n - 1].0 == cid
    &&& out.objects@[n - 1].1 matches Object::Dictionary(c)
        && c@ == last_catalog(a).unwrap().insert(pages_name(), Object::Reference(pid)).remove(outlines_name())
    &&& out.pages@.len() == l.len()
    &&& forall|j: int| 0 <= j < l.len() ==> (#[trigger] out.pages@[j]).0 == l[j].0
        && is_reparented(out.pages@[j].1, l[j].1, pid)
    &&& out.root == Some(cid)
    &&& n + l.len() <= usize::MAX ==> out.max_id == (n + l.len()) as u32
}

/// Every leaf page of every document is a dictionary.
pub open spec fn leaves_are_dictionaries(docs: Seq<Document>) -> bool {
    forall|j: int| 0 <= j < all_pages(docs).len() ==> (#[trigger] all_pages(docs)[j]).1 is Dictionary
}

/// The elements of `v` in reverse order.
fn reversed<T>(v: Vec<T>) -> (r: Vec<T>)
    ensures
        r@.len() == v@.len(),
        forall|j: int| 0 <= j < v@.len() ==> #[trigger] r@[j] == v@[v@.len() - 1 - j],
{
    let ghost orig = v@;
    let mut v = v;
    let mut r: Vec<T> = Vec::new();
    while v.len() > 0
        invariant
            v@ == orig.subrange(0, orig.len() - r@.len()),
            r@.len() <= orig.len(),
            forall|j: int| 0 <= j < r@.len() ==> #[trigger] r@[j] == orig[orig.len() - 1 - j],
        decreases v@.len(),
    {
        let e = v.pop().unwrap();
        r.push(e);
    }
    r
}

/// Checks that every leaf page of every document is a dictionary.
pub fn check_leaves(docs: &Vec<Document>) -> (r: bool)
    ensures
        r == leaves_are_dictionaries(docs@),
{
    let mut i: usize = 0;
    while i < docs.len()
        invariant
            0 <= i <= docs@.len(),
            leaves_are_dictionaries(docs@.subrange(0, i as int)),
        decreases docs@.len() - i,
    {
        let pages = &docs[i].pages;
        let mut j: usize = 0;
        while j < pages.len()
            invariant
                0 <= i < docs@.len(),
                pages == docs@[i as int].pages,
                0 <= j <= pages@.len(),
                forall|q: int| 0 <= q < j ==> (#[trigger] pages@[q]).1 is Dictionary,
            decreases pages@.len() - j,
        {
            let is_dict = match &pages[j].1 {
                Object::Dictionary(_) => true,
                _ => false,
            };
            if !is_dict {
                proof {
                    lemma_leaves_split(docs@, i as int, j as int);
                }
                return false;
            }
            j = j + 1;
        }
        proof {
            let s = docs@.subrange(0, i + 1);
            assert(s.drop_last() =~= docs@.subrange(0, i as int));
            assert(all_pages(s) == all_pages(docs@.subrange(0, i as int)) + pages@);
        }
        i = i + 1;
    }
    assert(docs@.subrange(0, docs@.len() as int) =~= docs@);
    true
}

proof fn lemma_all_pages_prefix(docs: Seq<Document>, i: int)
    requires
        0 <= i <= docs.len(),
    ensures
        all_pages(docs).len() >= all_pages(docs.subrange(0, i)).len(),
        forall|q: int| 0 <= q < all_pages(docs.subrange(0, i)).len() ==> all_pages(docs)[q] == #[trigger] all_pages(docs.subrange(0, i))[q],
    decreases docs.len() - i,
{
    if i < docs.len() {
        lemma_all_pages_prefix(docs, i + 1);
        let s = docs.subrange(0, i + 1);
        assert(s.drop_last() =~= docs.subrange(0, i));
        let p = all_pages(docs.subrange(0, i));
        assert(all_pages(s) == p + s.last().pages@);
        assert forall|q: int| 0 <= q < p.len() implies all_pages(docs)[q] == #[trigger] p[q] by {
            assert(all_pages(s)[q] == p[q]);
        }
    } else {
        assert(docs.subrange(0, i) =~= docs);
    }
}

proof fn lemma_leaves_split(docs: Seq<Document>, i: int, j: int)
    requires
        0 <= i < docs.len(),
        0 <= j < docs[i].pages@.len(),
        !(docs[i].pages@[j].1 is Dictionary),
    ensures
        !leaves_are_dictionaries(docs),
{
    let s = docs.subrange(0, i + 1);
    assert(s.drop_last() =~= docs.subrange(0, i));
    let base = all_pages(docs.subrange(0, i)).len();
    assert(all_pages(s)[base + j] == docs[i].pages@[j]);
    lemma_all_pages_prefix(docs, i + 1);
    assert(all_pages(docs)[base + j] == all_pages(s)[base + j]);
}

/// The documents' objects and leaf pages, each concatenated in input order.
fn flatten(docs: Vec<Document>) -> (r: (Vec<Entry>, Vec<Entry>))
    ensures
        r.0@ == all_objects(docs@),
        r.1@ == all_pages(docs@),
{
    let ghost orig = docs@;
    let mut rev = reversed(docs);
    let mut objs: Vec<Entry> = Vec::new();
    let mut leaves: Vec<Entry> = Vec::new();
    while rev.len() > 0
        invariant
            rev@.len() <= orig.len(),
            forall|j: int| 0 <= j < rev@.len() ==> #[trigger] rev@[j] == orig[orig.len() - 1 - j],
            objs@ == all_objects(orig.subrange(0, orig.len() - rev@.len())),
            leaves@ == all_pages(orig.subrange(0, orig.len() - rev@.len())),
        decreases rev@.len(),
    {
        let ghost c = orig.len() - rev@.len();
        let mut d = rev.pop().unwrap();
        proof {
            let s = orig.subrange(0, c + 1);
            assert(s.drop_last() =~= orig.subrange(0, c));
            assert(s.last() == d);
        }
        objs.append(&mut d.objects);
        leaves.append(&mut d.pages);
    }
    assert(orig.subrange(0, orig.len() as int) =~= orig);
    (objs, leaves)
}

/// One pass over the objects in order: the objects kept as they are, the
/// catalog (the first one's identifier with the last one's fields) and the
/// merged Pages dictionary under the first one's identifier.
fn scan(objs: Vec<Entry>) -> (r: (Vec<Entry>, Option<(ObjectId, Dictionary)>, Option<(ObjectId, Dictionary)>))
    ensures
        r.0@ == kept(objs@),
        match r.1 {
            Some(c) => first_id(objs@, Role::Catalog) == Some(c.0) && last_catalog(objs@) == Some(c.1@),
            None => first_id(objs@, Role::Catalog) is None,
        },
        match r.2 {
            Some(p) => first_id(objs@, Role::Pages) == Some(p.0) && pages_fields(objs@) == Some(p.1@),
            None => first_id(objs@, Role::Pages) is None,
        },
{
    let ghost orig = objs@;
    let mut rev = reversed(objs);
    let mut keep: Vec<Entry> = Vec::new();
    let mut cat: Option<(ObjectId, Dictionary)> = None;
    let mut pg: Option<(ObjectId, Dictionary)> = None;
    while rev.len() > 0
        invariant
            rev@.len() <= orig.len(),
            forall|j: int| 0 <= j < rev@.len() ==> #[trigger] rev@[j] == orig[orig.len() - 1 - j],
            keep@ == kept(orig.subrange(0, orig.len() - rev@.len())),
            match cat {
                Some(c) => first_id(orig.subrange(0, orig.len() - rev@.len()), Role::Catalog) == Some(c.0)
                    && last_catalog(orig.subrange(0, orig.len() - rev@.len())) == Some(c.1@),
                None => first_id(orig.subrange(0, orig.len() - rev@.len()), Role::Catalog) is None
                    && last_catalog(orig.subrange(0, orig.len() - rev@.len())) is None,
            },
            match pg {
                Some(p) => first_id(orig.subrange(0, orig.len() - rev@.len()), Role::Pages) == Some(p.0)
                    && pages_fields(orig.subrange(0, orig.len() - rev@.len())) == Some(p.1@),
                None => first_id(orig.subrange(0, orig.len() - rev@.len()), Role::Pages) is None
                    && pages_fields(orig.subrange(0, orig.len() - rev@.len())) is None,
            },
        decreases rev@.len(),
    {
        let ghost c = orig.len() - rev@.len();
        let e = rev.pop().unwrap();
        proof {
            let s = orig.subrange(0, c + 1);
            assert(s.drop_last() =~= orig.subrange(0, c));
            assert(s.last() == e);
        }
        let role = classify(&e.1);
        match role {
            Role::Other => {
                keep.push(e);
            },
            Role::Catalog => {
                let (id, obj) = e;
                if let Object::Dictionary(d) = obj {
                    cat = match cat {
                        Some((first, _)) => Some((first, d)),
                        None => Some((id, d)),
                    };
                }
            },
            Role::Pages => {
                let (id, obj) = e;
                if let Object::Dictionary(d) = obj {
                    pg = match pg {
                        Some((first, acc)) => Some((first, d.overlaid_with(acc))),
                        None => Some((id, d)),
                    };
                }
            },
            _ => {},
        }
    }
    assert(orig.subrange(0, orig.len() as int) =~= orig);
    (keep, cat, pg)
}

/// Each leaf page with its `Parent` set to `pid`, and references to them in order.
fn hang_pages(leaves: Vec<Entry>, pid: ObjectId) -> (r: (Vec<Entry>, Vec<Object>))
    requires
        forall|j: int| 0 <= j < leaves@.len() ==> (#[trigger] leaves@[j]).1 is Dictionary,
    ensures
        r.0@.len() == leaves@.len(),
        forall|j: int| 0 <= j < leaves@.len() ==> (#[trigger] r.0@[j]).0 == leaves@[j].0
            && is_reparented(r.0@[j].1, leaves@[j].1, pid),
        r.1@ == refs(leaves@),
{
    let ghost orig = leaves@;
    let mut rev = reversed(leaves);
    let mut hung: Vec<Entry> = Vec::new();
    let mut kids: Vec<Object> = Vec::new();
    while rev.len() > 0
        invariant
            rev@.len() <= orig.len(),
            forall|j: int| 0 <= j < rev@.len() ==> #[trigger] rev@[j] == orig[orig.len() - 1 - j],
            forall|j: int| 0 <= j < orig.len() ==> (#[trigger] orig[j]).1 is Dictionary,
            hung@.len() == orig.len() - rev@.len(),
            kids@ == refs(orig.subrange(0, orig.len() - rev@.len())),
            forall|j: int| 0 <= j < hung@.len() ==> (#[trigger] hung@[j]).0 == orig[j].0
                && is_reparented(hung@[j].1, orig[j].1, pid),
        decreases rev@.len(),
    {
        let ghost c = orig.len() - rev@.len();
        let (id, obj) = rev.pop().unwrap();
        assert(orig[c] == (id, obj));
        if let Object::Dictionary(mut d) = obj {
            d.set(parent_key_bytes(), Object::Reference(pid));
            hung.push((id, Object::Dictionary(d)));
        }
        kids.push(Object::Reference(id));
        assert(refs(orig.subrange(0, c + 1)) =~= refs(orig.subrange(0, c)).push(Object::Reference(id)));
    }
    assert(orig.subrange(0, orig.len() as int) =~= orig);
    (hung, kids)
}

/// Merges the documents, in order, into one: the objects without a page-tree
/// role pass through, the leaf pages hang in order under the first Pages node
/// (its fields merged over all Pages nodes), and the first catalog's
/// identifier becomes the root.
pub fn merge(docs: Vec<Document>) -> (r: Result<Document, MergeError>)
    requires
        leaves_are_dictionaries(docs@),
    ensures
        r == Err::<Document, MergeError>(MergeError::EmptyInput) <==> docs@.len() == 0,
        r == Err::<Document, MergeError>(MergeError::MissingPagesRoot) <==> docs@.len() > 0
            && first_id(all_objects(docs@), Role::Pages) is None,
        r == Err::<Document, MergeError>(MergeError::MissingCatalogRoot) <==> docs@.len() > 0
            && first_id(all_objects(docs@), Role::Pages) is Some
            && first_id(all_objects(docs@), Role::Catalog) is None,
        r matches Ok(out) ==> merged_into(docs@, out),
{
    if docs.len() == 0 {
        return Err(MergeError::EmptyInput);
    }
    let ghost d0 = docs@;
    let (objs, leaves) = flatten(docs);
    let (keep, cat, pg) = scan(objs);
    let (pid, mut fields) = match pg {
        None => {
            return Err(MergeError::MissingPagesRoot);
        },
        Some(p) => p,
    };
    let (cid, mut catalog) = match cat {
        None => {
            return Err(MergeError::MissingCatalogRoot);
        },
        Some(c) => c,
    };
    let ghost l = leaves@;
    let ghost base = fields@;
    let ghost cat0 = catalog@;
    let n_pages = leaves.len();
    let (hung, kids) = hang_pages(leaves, pid);
    let ghost kv = kids;
    fields.set(count_key_bytes(), Object::Integer(n_pages as i64));
    fields.set(kids_key_bytes(), Object::Array(kids));
    catalog.set(pages_name_bytes(), Object::Reference(pid));
    catalog.remove(&outlines_name_bytes());
    let ghost fm = fields@;
    proof {
        assert(fm.remove(kids_key()) =~= base.insert(count_key(), Object::Integer(l.len() as i64)).remove(kids_key()));
        assert(fm[kids_key()] == Object::Array(kv));
    }
    let mut objects = keep;
    objects.push((pid, Object::Dictionary(fields)));
    objects.push((cid, Object::Dictionary(catalog)));
    let max_id: u32 = match objects.len().checked_add(hung.len()) {
        Some(t) => t as u32,
        None => u32::MAX,
    };
    let out = Document { objects, pages: hung, root: Some(cid), max_id };
    proof {
        let k = kept(all_objects(d0));
        assert(out.objects@.subrange(0, k.len() as int) =~= k);
    }
    Ok(out)
}

} // verus!
