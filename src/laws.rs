use vstd::prelude::*;

use crate::merge::{
    all_objects, all_pages, first_id, is_pages_node, is_reparented, kept, last_catalog,
    leaves_are_dictionaries, merged_into, page_total, pages_fields, refs, Document, Entry,
};
use crate::object::{
    count_key, dict_role, kids_key, outlines_name, overlay, pages_name, parent_key, role_of,
    type_key, Object, Role,
};

verus! {

proof fn lemma_keys_differ()
    ensures
        type_key() != parent_key(),
        type_key() != pages_name(),
        type_key() != outlines_name(),
        type_key() != count_key(),
        type_key() != kids_key(),
        count_key() != kids_key(),
{
    assert(type_key()[0] != parent_key()[0]);
    assert(type_key()[0] != pages_name()[0]);
    assert(type_key()[0] != outlines_name()[0]);
    assert(type_key()[0] != count_key()[0]);
    assert(type_key()[0] != kids_key()[0]);
    assert(count_key()[0] != kids_key()[0]);
}

proof fn lemma_page_total(docs: Seq<Document>)
    ensures
        all_pages(docs).len() == page_total(docs),
    decreases docs.len(),
{
    if docs.len() > 0 {
        lemma_page_total(docs.drop_last());
    }
}

proof fn lemma_kept_other(s: Seq<Entry>)
    ensures
        forall|i: int| 0 <= i < kept(s).len() ==> role_of((#[trigger] kept(s)[i]).1) == Role::Other,
    decreases s.len(),
{
    if s.len() > 0 {
        lemma_kept_other(s.drop_last());
    }
}

proof fn lemma_catalog_found(s: Seq<Entry>)
    ensures
        (first_id(s, Role::Catalog) is Some) == (last_catalog(s) is Some),
        last_catalog(s) is Some ==> dict_role(last_catalog(s).unwrap()) == Role::Catalog,
    decreases s.len(),
{
    if s.len() > 0 {
        lemma_catalog_found(s.drop_last());
    }
}

proof fn lemma_pages_found(s: Seq<Entry>)
    ensures
        (first_id(s, Role::Pages) is Some) == (pages_fields(s) is Some),
        pages_fields(s) is Some ==> dict_role(pages_fields(s).unwrap()) == Role::Pages,
    decreases s.len(),
{
    if s.len() > 0 {
        lemma_pages_found(s.drop_last());
        let prev = pages_fields(s.drop_last());
        if role_of(s.last().1) == Role::Pages {
            if let Some(acc) = prev {
                let m = s.last().1.dict_of().unwrap()@;
                assert(overlay(m, acc).contains_key(type_key()));
                assert(overlay(m, acc)[type_key()] == acc[type_key()]);
            }
        }
    }
}

/// The merged root Pages node counts every page of every input: its `Count`
/// is the sum of the inputs' page counts, and so is the length of its `Kids`
/// and of the merged leaf list.
pub proof fn lemma_page_count_preserved(docs: Seq<Document>, out: Document)
    requires
        merged_into(docs, out),
    ensures
        out.pages@.len() == page_total(docs),
        out.objects@[out.objects@.len() - 2].1 matches Object::Dictionary(d)
            && d@.contains_key(count_key())
            && d@[count_key()] == Object::Integer(page_total(docs) as i64)
            && (d@[kids_key()] matches Object::Array(v) && v@.len() == page_total(docs)),
{
    lemma_page_total(docs);
    lemma_keys_differ();
    let n = out.objects@.len();
    if let Object::Dictionary(d) = out.objects@[n - 2].1 {
        assert(d@.remove(kids_key()).contains_key(count_key()));
        assert(d@.remove(kids_key())[count_key()] == d@[count_key()]);
    }
}

/// The merged page order is input order, then page-tree order: the j-th kid of
/// the root Pages node and the j-th merged leaf are the j-th page of the
/// documents taken one after another.
pub proof fn lemma_page_order_preserved(docs: Seq<Document>, out: Document)
    requires
        merged_into(docs, out),
    ensures
        out.objects@[out.objects@.len() - 2].1 matches Object::Dictionary(d)
            && (d@[kids_key()] matches Object::Array(v)
            && forall|j: int| 0 <= j < all_pages(docs).len() ==>
                v@[j] == Object::Reference(#[trigger] all_pages(docs)[j].0)
                && out.pages@[j].0 == all_pages(docs)[j].0),
{
}

/// The first pages of the merged order are those of the first documents: the
/// pages of `docs[..i]` come first, and those of `docs[i]` right after them.
pub proof fn lemma_pages_concatenate(docs: Seq<Document>, i: int)
    requires
        0 <= i < docs.len(),
    ensures
        all_pages(docs.subrange(0, i + 1)) == all_pages(docs.subrange(0, i)) + docs[i].pages@,
{
    assert(docs.subrange(0, i + 1).drop_last() =~= docs.subrange(0, i));
}

/// The merged document has one catalog and one root Pages node: the last two
/// objects, and no other object has either role. The trailer's root is that
/// catalog, whose `Pages` entry refers to that node; each leaf keeps its role.
pub proof fn lemma_single_root(docs: Seq<Document>, out: Document)
    requires
        leaves_are_dictionaries(docs),
        merged_into(docs, out),
    ensures
        out.objects@.len() >= 2,
        forall|i: int| 0 <= i < out.objects@.len() ==>
            (role_of((#[trigger] out.objects@[i]).1) == Role::Catalog <==> i == out.objects@.len() - 1),
        forall|i: int| 0 <= i < out.objects@.len() ==>
            (role_of((#[trigger] out.objects@[i]).1) == Role::Pages <==> i == out.objects@.len() - 2),
        forall|j: int| 0 <= j < out.pages@.len() ==>
            role_of((#[trigger] out.pages@[j]).1) == role_of(all_pages(docs)[j].1),
        out.root == Some(out.objects@[out.objects@.len() - 1].0),
        out.objects@[out.objects@.len() - 1].1 matches Object::Dictionary(c)
            && c@.contains_key(pages_name())
            && c@[pages_name()] == Object::Reference(out.objects@[out.objects@.len() - 2].0),
{
    let a = all_objects(docs);
    let k = kept(a);
    let n = out.objects@.len();
    lemma_keys_differ();
    lemma_kept_other(a);
    lemma_catalog_found(a);
    lemma_pages_found(a);
    assert forall|i: int| 0 <= i < n - 2 implies role_of(#[trigger] out.objects@[i].1) == Role::Other by {
        assert(out.objects@.subrange(0, k.len() as int)[i] == k[i]);
    }
    if let Object::Dictionary(c) = out.objects@[n - 1].1 {
        let base = last_catalog(a).unwrap();
        assert(c@.contains_key(type_key()) == base.contains_key(type_key()));
        assert(c@.contains_key(type_key()) ==> c@[type_key()] == base[type_key()]);
        assert(dict_role(c@) == Role::Catalog);
    }
    if let Object::Dictionary(d) = out.objects@[n - 2].1 {
        let base = pages_fields(a).unwrap();
        let m = base.insert(count_key(), Object::Integer(all_pages(docs).len() as i64)).remove(kids_key());
        assert(d@.remove(kids_key()) == m);
        assert(d@.contains_key(type_key()) == m.contains_key(type_key()));
        assert(m.contains_key(type_key()) == base.contains_key(type_key()));
        assert(m.contains_key(type_key()) ==> d@[type_key()] == d@.remove(kids_key())[type_key()]);
        assert(m.contains_key(type_key()) ==> m[type_key()] == base[type_key()]);
        assert(dict_role(d@) == Role::Pages);
    }
    assert forall|j: int| 0 <= j < out.pages@.len() implies
        role_of((#[trigger] out.pages@[j]).1) == role_of(all_pages(docs)[j].1) by {
        let l = all_pages(docs);
        assert(out.pages@[j].0 == l[j].0 && is_reparented(out.pages@[j].1, l[j].1, first_id(a, Role::Pages).unwrap()));
        assert(l[j].1 is Dictionary);
        if let Object::Dictionary(d) = out.pages@[j].1 {
            let pm = l[j].1.dict_of().unwrap()@;
            assert(d@.contains_key(type_key()) == pm.contains_key(type_key()));
            assert(pm.contains_key(type_key()) ==> d@[type_key()] == pm[type_key()]);
        }
    }
}

/// Every merged leaf page names the merged root Pages node as its `Parent`.
pub proof fn lemma_parent_correct(docs: Seq<Document>, out: Document)
    requires
        merged_into(docs, out),
    ensures
        forall|j: int| 0 <= j < out.pages@.len() ==>
            ((#[trigger] out.pages@[j]).1 matches Object::Dictionary(d)
            && d@.contains_key(parent_key())
            && d@[parent_key()] == Object::Reference(out.objects@[out.objects@.len() - 2].0)),
{
    assert forall|j: int| 0 <= j < out.pages@.len() implies
        ((#[trigger] out.pages@[j]).1 matches Object::Dictionary(d)
            && d@.contains_key(parent_key())
            && d@[parent_key()] == Object::Reference(out.objects@[out.objects@.len() - 2].0)) by {
        let l = all_pages(docs);
        assert(out.pages@[j].0 == l[j].0 && is_reparented(out.pages@[j].1, l[j].1, first_id(all_objects(docs), Role::Pages).unwrap()));
    }
}

/// Merging one document keeps its pages, in order, each with its own fields
/// but for `Parent`, and keeps its other objects but the page-tree nodes and
/// outlines as they are.
pub proof fn lemma_single_input(d: Document, out: Document)
    requires
        merged_into(seq![d], out),
    ensures
        out.pages@.len() == d.pages@.len(),
        forall|j: int| 0 <= j < d.pages@.len() ==> (#[trigger] out.pages@[j]).0 == d.pages@[j].0
            && (out.pages@[j].1 matches Object::Dictionary(p)
            && p@ == d.pages@[j].1.dict_of().unwrap()@.insert(
                parent_key(),
                Object::Reference(out.objects@[out.objects@.len() - 2].0),
            )),
        out.objects@.subrange(0, out.objects@.len() - 2) == kept(d.objects@),
{
    let docs = seq![d];
    assert(docs.drop_last() =~= Seq::<Document>::empty());
    assert(docs.last() == d);
    assert(all_pages(docs.drop_last()) == Seq::<Entry>::empty());
    assert(all_objects(docs.drop_last()) == Seq::<Entry>::empty());
    assert(all_pages(docs) == all_pages(docs.drop_last()) + d.pages@);
    assert(all_objects(docs) == all_objects(docs.drop_last()) + d.objects@);
    assert(all_pages(docs) =~= d.pages@);
    assert(all_objects(docs) =~= d.objects@);
    assert forall|j: int| 0 <= j < d.pages@.len() implies (#[trigger] out.pages@[j]).0 == d.pages@[j].0
        && (out.pages@[j].1 matches Object::Dictionary(p)
        && p@ == d.pages@[j].1.dict_of().unwrap()@.insert(
            parent_key(),
            Object::Reference(out.objects@[out.objects@.len() - 2].0),
        )) by {
        assert(out.pages@[j].0 == all_pages(docs)[j].0);
    }
}

/// No two entries of `s` share an identifier.
pub open spec fn ids_distinct(s: Seq<Entry>) -> bool {
    forall|i: int, j: int| 0 <= i < j < s.len() ==> (#[trigger] s[i]).0 != (#[trigger] s[j]).0
}

proof fn lemma_kept_from(s: Seq<Entry>)
    ensures
        forall|i: int| 0 <= i < kept(s).len() ==> exists|j: int| 0 <= j < s.len() && #[trigger] kept(s)[i] == s[j],
    decreases s.len(),
{
    if s.len() > 0 {
        let dl = s.drop_last();
        lemma_kept_from(dl);
        assert forall|i: int| 0 <= i < kept(s).len() implies exists|j: int| 0 <= j < s.len() && #[trigger] kept(s)[i] == s[j] by {
            if i < kept(dl).len() {
                let j = choose|j: int| 0 <= j < dl.len() && kept(dl)[i] == dl[j];
                assert(kept(s)[i] == s[j]);
            } else {
                assert(kept(s)[i] == s[s.len() - 1]);
            }
        }
    }
}

proof fn lemma_kept_distinct(s: Seq<Entry>)
    requires
        ids_distinct(s),
    ensures
        ids_distinct(kept(s)),
    decreases s.len(),
{
    if s.len() > 0 {
        let dl = s.drop_last();
        assert(ids_distinct(dl)) by {
            assert forall|i: int, j: int| 0 <= i < j < dl.len() implies (#[trigger] dl[i]).0 != (#[trigger] dl[j]).0 by {
                assert(dl[i] == s[i] && dl[j] == s[j]);
            }
        }
        lemma_kept_distinct(dl);
        lemma_kept_from(dl);
        if role_of(s.last().1) == Role::Other {
            let k = kept(s);
            assert forall|i: int, j: int| 0 <= i < j < k.len() implies (#[trigger] k[i]).0 != (#[trigger] k[j]).0 by {
                if j == k.len() - 1 {
                    let q = choose|q: int| 0 <= q < dl.len() && kept(dl)[i] == dl[q];
                    assert(k[i] == s[q]);
                    assert(k[j] == s[s.len() - 1]);
                } else {
                    assert(k[i] == kept(dl)[i] && k[j] == kept(dl)[j]);
                }
            }
        }
    }
}

proof fn lemma_first_id_from(s: Seq<Entry>, r: Role)
    ensures
        first_id(s, r) is Some ==> exists|j: int| 0 <= j < s.len() && s[j].0 == first_id(s, r).unwrap()
            && #[trigger] role_of(s[j].1) == r,
    decreases s.len(),
{
    if s.len() > 0 {
        let dl = s.drop_last();
        lemma_first_id_from(dl, r);
        if first_id(dl, r) is Some {
            let j = choose|j: int| 0 <= j < dl.len() && dl[j].0 == first_id(dl, r).unwrap() && #[trigger] role_of(dl[j].1) == r;
            assert(s[j] == dl[j]);
        } else if role_of(s.last().1) == r {
            assert(s[s.len() - 1] == s.last());
        }
    }
}

/// Where the inputs' identifiers are pairwise distinct, so are those of the
/// merged document: no two source objects collide.
pub proof fn lemma_identity_unique(docs: Seq<Document>, out: Document)
    requires
        ids_distinct(all_objects(docs) + all_pages(docs)),
        merged_into(docs, out),
    ensures
        ids_distinct(out.objects@ + out.pages@),
{
    let a = all_objects(docs);
    let l = all_pages(docs);
    let c = a + l;
    let k = kept(a);
    let o = out.objects@ + out.pages@;
    let n = out.objects@.len();
    assert(ids_distinct(a)) by {
        assert forall|i: int, j: int| 0 <= i < j < a.len() implies (#[trigger] a[i]).0 != (#[trigger] a[j]).0 by {
            assert(c[i] == a[i] && c[j] == a[j]);
        }
    }
    lemma_kept_distinct(a);
    lemma_kept_from(a);
    lemma_kept_other(a);
    lemma_first_id_from(a, Role::Pages);
    lemma_first_id_from(a, Role::Catalog);
    let jp = choose|j: int| 0 <= j < a.len() && a[j].0 == first_id(a, Role::Pages).unwrap() && #[trigger] role_of(a[j].1) == Role::Pages;
    let jc = choose|j: int| 0 <= j < a.len() && a[j].0 == first_id(a, Role::Catalog).unwrap() && #[trigger] role_of(a[j].1) == Role::Catalog;
    // Where in `c` each merged entry's identifier comes from.
    assert forall|x: int| 0 <= x < o.len() implies exists|q: int| 0 <= q < c.len() && (#[trigger] o[x]).0 == c[q].0
        && (x < n - 2 ==> q < a.len() && role_of(c[q].1) == Role::Other)
        && (x == n - 2 ==> q == jp)
        && (x == n - 1 ==> q == jc)
        && (x >= n ==> q == a.len() + (x - n)) by {
        if x < n - 2 {
            assert(out.objects@.subrange(0, k.len() as int)[x] == k[x]);
            let q = choose|q: int| 0 <= q < a.len() && k[x] == a[q];
            assert(o[x] == k[x]);
            assert(c[q] == a[q]);
            assert(role_of(k[x].1) == Role::Other);
        } else if x == n - 2 {
            assert(c[jp] == a[jp]);
        } else if x == n - 1 {
            assert(c[jc] == a[jc]);
        } else {
            assert(o[x] == out.pages@[x - n]);
            assert(c[a.len() + (x - n)] == l[x - n]);
        }
    }
    assert forall|x: int, y: int| 0 <= x < y < o.len() implies (#[trigger] o[x]).0 != (#[trigger] o[y]).0 by {
        let qx = choose|q: int| 0 <= q < c.len() && (#[trigger] o[x]).0 == c[q].0
            && (x < n - 2 ==> q < a.len() && role_of(c[q].1) == Role::Other)
            && (x == n - 2 ==> q == jp)
            && (x == n - 1 ==> q == jc)
            && (x >= n ==> q == a.len() + (x - n));
        let qy = choose|q: int| 0 <= q < c.len() && (#[trigger] o[y]).0 == c[q].0
            && (y < n - 2 ==> q < a.len() && role_of(c[q].1) == Role::Other)
            && (y == n - 2 ==> q == jp)
            && (y == n - 1 ==> q == jc)
            && (y >= n ==> q == a.len() + (y - n));
        if x < n - 2 && y < n - 2 {
            assert(o[x] == k[x] && o[y] == k[y]) by {
                assert(out.objects@.subrange(0, k.len() as int)[x] == k[x]);
                assert(out.objects@.subrange(0, k.len() as int)[y] == k[y]);
            }
        } else {
            assert(qx != qy) by {
                assert(c[jp] == a[jp] && c[jc] == a[jc]);
            }
            if qx < qy {
                assert(c[qx].0 != c[qy].0);
            } else {
                assert(c[qy].0 != c[qx].0);
            }
        }
    }
}

} // verus!
