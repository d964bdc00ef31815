use vstd::prelude::*;

verus! {

/// An indirect-object identifier: object number and generation.
pub type ObjectId = (u32, u16);

/// How a string object was written in the source file.
#[derive(Clone, Copy, Debug, PartialEq, Eq, Structural)]
pub enum StringFormat {
    Literal,
    Hexadecimal,
}

/// A value of the document graph.
///
/// A real number is held as the bit pattern of its double-precision value; a
/// stream holds its dictionary, its content, and whether it may be compressed.
#[derive(Debug, PartialEq, Eq)]
pub enum Object {
    Null,
    Boolean(bool),
    Integer(i64),
    Real(u64),
    String(Vec<u8>, StringFormat),
    Name(Vec<u8>),
    Array(Vec<Object>),
    Dictionary(Dictionary),
    Stream(Dictionary, Vec<u8>, bool),
    Reference(ObjectId),
}

/// A dictionary, held as a list of entries in which a later entry for a key
/// hides an earlier one.
#[derive(Debug, PartialEq, Eq)]
pub struct Dictionary {
    pub entries: Vec<(Vec<u8>, Object)>,
}

/// The value that a list of entries gives to `key`: that of its last entry for it.
pub open spec fn lookup(es: Seq<(Vec<u8>, Object)>, key: Seq<u8>) -> Option<Object>
    decreases es.len(),
{
    if es.len() == 0 {
        None
    } else if es.last().0@ == key {
        Some(es.last().1)
    } else {
        lookup(es.drop_last(), key)
    }
}

impl View for Dictionary {
    type V = Map<Seq<u8>, Object>;

    open spec fn view(&self) -> Map<Seq<u8>, Object> {
        Map::new(
            |k: Seq<u8>| lookup(self.entries@, k) is Some,
            |k: Seq<u8>| lookup(self.entries@, k).unwrap(),
        )
    }
}

/// Byte-string equality.
pub fn same_bytes(a: &Vec<u8>, b: &Vec<u8>) -> (r: bool)
    ensures
        r == (a@ == b@),
{
    if a.len() != b.len() {
        return false;
    }
    let mut i: usize = 0;
    while i < a.len()
        invariant
            a@.len() == b@.len(),
            0 <= i <= a@.len(),
            forall|j: int| 0 <= j < i ==> a@[j] == b@[j],
        decreases a@.len() - i,
    {
        if a[i] != b[i] {
            return false;
        }
        i = i + 1;
    }
    assert(a@ =~= b@);
    true
}

/// Structural role of an object in the page tree, read from its `/Type` name.
#[derive(Clone, Copy, Debug, PartialEq, Eq, Structural)]
pub enum Role {
    Catalog,
    Pages,
    Page,
    Outline,
    Other,
}

pub open spec fn type_key() -> Seq<u8> {
    seq![84u8, 121u8, 112u8, 101u8]
}

pub open spec fn catalog_name() -> Seq<u8> {
    seq![67u8, 97u8, 116u8, 97u8, 108u8, 111u8, 103u8]
}

pub open spec fn pages_name() -> Seq<u8> {
    seq![80u8, 97u8, 103u8, 101u8, 115u8]
}

pub open spec fn page_name() -> Seq<u8> {
    seq![80u8, 97u8, 103u8, 101u8]
}

pub open spec fn outlines_name() -> Seq<u8> {
    seq![79u8, 117u8, 116u8, 108u8, 105u8, 110u8, 101u8, 115u8]
}

pub open spec fn outline_name() -> Seq<u8> {
    seq![79u8, 117u8, 116u8, 108u8, 105u8, 110u8, 101u8]
}

pub open spec fn kids_key() -> Seq<u8> {
    seq![75u8, 105u8, 100u8, 115u8]
}

pub open spec fn count_key() -> Seq<u8> {
    seq![67u8, 111u8, 117u8, 110u8, 116u8]
}

pub open spec fn parent_key() -> Seq<u8> {
    seq![80u8, 97u8, 114u8, 101u8, 110u8, 116u8]
}

/// The role that a type name gives.
pub open spec fn role_of_name(n: Seq<u8>) -> Role {
    if n == catalog_name() {
        Role::Catalog
    } else if n == pages_name() {
        Role::Pages
    } else if n == page_name() {
        Role::Page
    } else if n == outlines_name() || n == outline_name() {
        Role::Outline
    } else {
        Role::Other
    }
}

/// The role of a dictionary: that of its `/Type` name, if it has one.
pub open spec fn dict_role(m: Map<Seq<u8>, Object>) -> Role {
    if m.contains_key(type_key()) {
        match m[type_key()] {
            Object::Name(n) => role_of_name(n@),
            _ => Role::Other,
        }
    } else {
        Role::Other
    }
}

/// The role of an object. Only a dictionary is a node of the page tree; a
/// stream is content whatever its dictionary says.
pub open spec fn role_of(o: Object) -> Role {
    match o {
        Object::Dictionary(d) => dict_role(d@),
        _ => Role::Other,
    }
}

pub fn type_key_bytes() -> (r: Vec<u8>)
    ensures
        r@ == type_key(),
{
    vec![84u8, 121, 112, 101]
}

pub fn kids_key_bytes() -> (r: Vec<u8>)
    ensures
        r@ == kids_key(),
{
    vec![75u8, 105, 100, 115]
}

pub fn count_key_bytes() -> (r: Vec<u8>)
    ensures
        r@ == count_key(),
{
    vec![67u8, 111, 117, 110, 116]
}

pub fn parent_key_bytes() -> (r: Vec<u8>)
    ensures
        r@ == parent_key(),
{
    vec![80u8, 97, 114, 101, 110, 116]
}

pub fn pages_name_bytes() -> (r: Vec<u8>)
    ensures
        r@ == pages_name(),
{
    vec![80u8, 97, 103, 101, 115]
}

pub fn outlines_name_bytes() -> (r: Vec<u8>)
    ensures
        r@ == outlines_name(),
{
    vec![79u8, 117, 116, 108, 105, 110, 101, 115]
}

/// The role that a type name gives.
pub fn classify_name(n: &Vec<u8>) -> (r: Role)
    ensures
        r == role_of_name(n@),
{
    let catalog: Vec<u8> = vec![67u8, 97, 116, 97, 108, 111, 103];
    let page: Vec<u8> = vec![80u8, 97, 103, 101];
    let outline: Vec<u8> = vec![79u8, 117, 116, 108, 105, 110, 101];
    if same_bytes(n, &catalog) {
        Role::Catalog
    } else if same_bytes(n, &pages_name_bytes()) {
        Role::Pages
    } else if same_bytes(n, &page) {
        Role::Page
    } else if same_bytes(n, &outlines_name_bytes()) || same_bytes(n, &outline) {
        Role::Outline
    } else {
        Role::Other
    }
}

/// The entries of `es` without those for `key`.
pub open spec fn without_key(es: Seq<(Vec<u8>, Object)>, key: Seq<u8>) -> Seq<(Vec<u8>, Object)>
    decreases es.len(),
{
    if es.len() == 0 {
        es
    } else if es.last().0@ == key {
        without_key(es.drop_last(), key)
    } else {
        without_key(es.drop_last(), key).push(es.last())
    }
}

proof fn lemma_lookup_push(es: Seq<(Vec<u8>, Object)>, e: (Vec<u8>, Object), k: Seq<u8>)
    ensures
        lookup(es.push(e), k) == if e.0@ == k { Some(e.1) } else { lookup(es, k) },
{
    assert(es.push(e).drop_last() =~= es);
}

proof fn lemma_lookup_without(es: Seq<(Vec<u8>, Object)>, key: Seq<u8>, k: Seq<u8>)
    ensures
        lookup(without_key(es, key), k) == if k == key { None } else { lookup(es, k) },
    decreases es.len(),
{
    if es.len() > 0 {
        lemma_lookup_without(es.drop_last(), key, k);
        if es.last().0@ != key {
            lemma_lookup_push(without_key(es.drop_last(), key), es.last(), k);
        }
    }
}

proof fn lemma_lookup_concat(a: Seq<(Vec<u8>, Object)>, b: Seq<(Vec<u8>, Object)>, k: Seq<u8>)
    ensures
        lookup(a + b, k) == if lookup(b, k) is Some { lookup(b, k) } else { lookup(a, k) },
    decreases b.len(),
{
    if b.len() == 0 {
        assert(a + b =~= a);
    } else {
        assert((a + b).drop_last() =~= a + b.drop_last());
        lemma_lookup_concat(a, b.drop_last(), k);
    }
}

/// The entries of `acc` laid over those of `base`: a key of `acc` keeps its value.
pub open spec fn overlay(base: Map<Seq<u8>, Object>, acc: Map<Seq<u8>, Object>) -> Map<Seq<u8>, Object> {
    base.union_prefer_right(acc)
}

impl Dictionary {
    pub fn new() -> (r: Dictionary)
        ensures
            r@ == Map::<Seq<u8>, Object>::empty(),
    {
        let r = Dictionary { entries: Vec::new() };
        assert(r@ =~= Map::<Seq<u8>, Object>::empty());
        r
    }

    /// The value held for `key`.
    pub fn get(&self, key: &Vec<u8>) -> (r: Option<&Object>)
        ensures
            match r {
                Some(v) => self@.contains_key(key@) && self@[key@] == *v,
                None => !self@.contains_key(key@),
            },
    {
        let mut i: usize = self.entries.len();
        assert(self.entries@.subrange(0, i as int) =~= self.entries@);
        while i > 0
            invariant
                i <= self.entries@.len(),
                lookup(self.entries@, key@) == lookup(self.entries@.subrange(0, i as int), key@),
            decreases i,
        {
            let ghost es = self.entries@.subrange(0, i as int);
            assert(es.drop_last() =~= self.entries@.subrange(0, i - 1));
            if same_bytes(&self.entries[i - 1].0, key) {
                return Some(&self.entries[i - 1].1);
            }
            i = i - 1;
        }
        None
    }

    /// Sets `key` to `value`.
    pub fn set(&mut self, key: Vec<u8>, value: Object)
        ensures
            final(self)@ == old(self)@.insert(key@, value),
    {
        let ghost k = key@;
        let ghost e = (key, value);
        self.entries.push((key, value));
        proof {
            assert forall|q: Seq<u8>| lookup(self.entries@, q) == (if q == k { Some(value) } else { lookup(old(self).entries@, q) }) by {
                lemma_lookup_push(old(self).entries@, self.entries@.last(), q);
            }
        }
        assert(self@ =~= old(self)@.insert(k, value));
    }

    /// Removes every entry for `key`.
    pub fn remove(&mut self, key: &Vec<u8>)
        ensures
            final(self)@ == old(self)@.remove(key@),
    {
        let ghost orig = self.entries@;
        let n = self.entries.len();
        let mut rev: Vec<(Vec<u8>, Object)> = Vec::new();
        while self.entries.len() > 0
            invariant
                n == orig.len(),
                self.entries@ == orig.subrange(0, n - rev@.len()),
                rev@.len() <= n,
                forall|j: int| 0 <= j < rev@.len() ==> #[trigger] rev@[j] == orig[n - 1 - j],
            decreases self.entries@.len(),
        {
            let e = self.entries.pop().unwrap();
            rev.push(e);
        }
        while rev.len() > 0
            invariant
                n == orig.len(),
                rev@.len() <= n,
                forall|j: int| 0 <= j < rev@.len() ==> #[trigger] rev@[j] == orig[n - 1 - j],
                self.entries@ == without_key(orig.subrange(0, n - rev@.len()), key@),
            decreases rev@.len(),
        {
            let ghost c = n - rev@.len();
            let e = rev.pop().unwrap();
            assert(orig.subrange(0, c + 1).drop_last() =~= orig.subrange(0, c));
            assert(orig.subrange(0, c + 1).last() == e);
            if !same_bytes(&e.0, key) {
                self.entries.push(e);
            }
        }
        assert(orig.subrange(0, n as int) =~= orig);
        proof {
            assert forall|q: Seq<u8>| lookup(self.entries@, q) == (if q == key@ { None } else { lookup(orig, q) }) by {
                lemma_lookup_without(orig, key@, q);
            }
        }
        assert(self@ =~= old(self)@.remove(key@));
    }

    /// This dictionary with the entries of `acc` laid over it: where both hold
    /// a key, the value of `acc` stays.
    pub fn overlaid_with(self, acc: Dictionary) -> (r: Dictionary)
        ensures
            r@ == overlay(self@, acc@),
    {
        let mut entries = self.entries;
        let mut more = acc.entries;
        entries.append(&mut more);
        let r = Dictionary { entries };
        proof {
            assert forall|q: Seq<u8>| lookup(r.entries@, q) == (if lookup(acc.entries@, q) is Some { lookup(acc.entries@, q) } else { lookup(self.entries@, q) }) by {
                lemma_lookup_concat(self.entries@, acc.entries@, q);
            }
        }
        assert(r@ =~= overlay(self@, acc@));
        r
    }
}

impl Object {
    /// The dictionary of a dictionary object.
    pub open spec fn dict_of(self) -> Option<Dictionary> {
        match self {
            Object::Dictionary(d) => Some(d),
            _ => None,
        }
    }
}

/// The role of an object, read from its `/Type` name.
pub fn classify(o: &Object) -> (r: Role)
    ensures
        r == role_of(*o),
{
    match o {
        Object::Dictionary(d) => {
            let key = type_key_bytes();
            match d.get(&key) {
                Some(Object::Name(n)) => classify_name(n),
                _ => Role::Other,
            }
        },
        _ => Role::Other,
    }
}

} // verus!
