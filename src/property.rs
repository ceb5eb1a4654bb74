use vstd::prelude::*;
use vstd::utf8::{encode_utf8, encode_utf8_decode_utf8};

verus! {

/// A property value as the codec sees it.
#[derive(Debug, PartialEq)]
pub enum Property {
    Boolean(bool),
    Integer(u32),
    /// A single-precision float, held as its IEEE-754 bit pattern.
    Float(u32),
    String(String),
    /// A value of a type this codec does not interpret: its payload bytes and
    /// its type tag, both kept verbatim.
    Unknown(Vec<u8>, u8),
}

impl From<bool> for Property {
    fn from(v: bool) -> (r: Self) {
        Property::Boolean(v)
    }
}

impl vstd::std_specs::convert::FromSpecImpl<bool> for Property {
    open spec fn obeys_from_spec() -> bool {
        true
    }

    open spec fn from_spec(v: bool) -> Self {
        Property::Boolean(v)
    }
}

impl From<u32> for Property {
    fn from(v: u32) -> (r: Self) {
        Property::Integer(v)
    }
}

impl vstd::std_specs::convert::FromSpecImpl<u32> for Property {
    open spec fn obeys_from_spec() -> bool {
        true
    }

    open spec fn from_spec(v: u32) -> Self {
        Property::Integer(v)
    }
}

impl From<String> for Property {
    fn from(v: String) -> (r: Self) {
        Property::String(v)
    }
}

impl vstd::std_specs::convert::FromSpecImpl<String> for Property {
    open spec fn obeys_from_spec() -> bool {
        true
    }

    open spec fn from_spec(v: String) -> Self {
        Property::String(v)
    }
}

/// The mathematical value of a [`Property`].
pub enum PropertyView {
    Boolean(bool),
    Integer(u32),
    Float(u32),
    String(Seq<char>),
    Unknown(Seq<u8>, u8),
}

impl View for Property {
    type V = PropertyView;

    open spec fn view(&self) -> PropertyView {
        match self {
            Property::Boolean(b) => PropertyView::Boolean(*b),
            Property::Integer(n) => PropertyView::Integer(*n),
            Property::Float(bits) => PropertyView::Float(*bits),
            Property::String(s) => PropertyView::String(s@),
            Property::Unknown(bytes, tag) => PropertyView::Unknown(bytes@, *tag),
        }
    }
}

/// A named value of a collection.
pub type Entry = (Seq<char>, PropertyView);

/// No two entries share a name.
pub open spec fn unique_names(es: Seq<Entry>) -> bool {
    forall|i: int, j: int| 0 <= i < j < es.len() ==> es[i].0 != es[j].0
}

/// Some entry is named `name`.
pub open spec fn has_name(es: Seq<Entry>, name: Seq<char>) -> bool {
    exists|i: int| 0 <= i < es.len() && es[i].0 == name
}

/// `i` is the first index of an entry named `name`.
pub open spec fn is_first_index(es: Seq<Entry>, name: Seq<char>, i: int) -> bool {
    &&& 0 <= i < es.len()
    &&& es[i].0 == name
    &&& forall|j: int| 0 <= j < i ==> es[j].0 != name
}

/// The index of the first entry named `name`, where there is one.
pub open spec fn index_of(es: Seq<Entry>, name: Seq<char>) -> int {
    choose|i: int| is_first_index(es, name, i)
}

/// There is only one first index of a name.
pub proof fn lemma_index_of(es: Seq<Entry>, name: Seq<char>, i: int)
    requires
        is_first_index(es, name, i),
    ensures
        has_name(es, name),
        index_of(es, name) == i,
{
    let k = index_of(es, name);
    assert(is_first_index(es, name, k));
    if k < i {
        assert(es[k].0 == name);
    } else if i < k {
        assert(es[i].0 == name);
    }
}

/// The value named `name`, if any.
pub open spec fn value_of(es: Seq<Entry>, name: Seq<char>) -> Option<PropertyView> {
    if has_name(es, name) {
        Some(es[index_of(es, name)].1)
    } else {
        None
    }
}

/// `es` with `name` bound to `v`: the entry of that name takes the new value
/// in its place, or a new entry goes at the end.
pub open spec fn insert_entry(es: Seq<Entry>, name: Seq<char>, v: PropertyView) -> Seq<Entry> {
    if has_name(es, name) {
        es.update(index_of(es, name), (name, v))
    } else {
        es.push((name, v))
    }
}

/// A collection of named properties that keeps the order in which names
/// were first inserted. Built by its own methods, it never holds two
/// entries of one name.
#[derive(Debug)]
pub struct PropertyMap {
    entries: Vec<(String, Property)>,
}

impl View for PropertyMap {
    type V = Seq<Entry>;

    closed spec fn view(&self) -> Seq<Entry> {
        self.entries@.map_values(|e: (String, Property)| (e.0@, e.1@))
    }
}

/// Whether two strings hold the same characters, compared by their UTF-8
/// bytes.
pub fn same_text(a: &str, b: &str) -> (r: bool)
    ensures
        r == (a@ == b@),
{
    let x = a.as_bytes();
    let y = b.as_bytes();
    proof {
        encode_utf8_decode_utf8(a@);
        encode_utf8_decode_utf8(b@);
    }
    if x.len() != y.len() {
        return false;
    }
    let mut i: usize = 0;
    while i < x.len()
        invariant
            x@ == encode_utf8(a@),
            y@ == encode_utf8(b@),
            x@.len() == y@.len(),
            i <= x@.len(),
            forall|j: int| 0 <= j < i ==> x@[j] == y@[j],
        decreases x@.len() - i,
    {
        if x[i] != y[i] {
            return false;
        }
        i = i + 1;
    }
    assert(x@ =~= y@);
    true
}

impl PropertyMap {
    /// An empty collection.
    pub fn new() -> (r: Self)
        ensures
            r@ == Seq::<Entry>::empty(),
    {
        let r = PropertyMap { entries: Vec::new() };
        assert(r@ =~= Seq::<Entry>::empty());
        r
    }

    /// The number of entries.
    pub fn len(&self) -> (r: usize)
        ensures
            r == self@.len(),
    {
        self.entries.len()
    }

    /// Whether the collection has no entry.
    pub fn is_empty(&self) -> (r: bool)
        ensures
            r == (self@.len() == 0),
    {
        self.entries.len() == 0
    }

    /// The entry at position `i`.
    pub fn entry_at(&self, i: usize) -> (r: (&String, &Property))
        requires
            i < self@.len(),
        ensures
            (r.0@, r.1@) == self@[i as int],
    {
        let e = &self.entries[i];
        (&e.0, &e.1)
    }

    /// The position of the entry named `name`, if any.
    fn find(&self, name: &str) -> (r: Option<usize>)
        ensures
            r matches Some(i) ==> is_first_index(self@, name@, i as int),
            r is None ==> !has_name(self@, name@),
    {
        let mut i: usize = 0;
        while i < self.entries.len()
            invariant
                i <= self@.len(),
                self@.len() == self.entries@.len(),
                forall|j: int| 0 <= j < i ==> self@[j].0 != name@,
            decreases self@.len() - i,
        {
            assert(self@[i as int].0 == self.entries@[i as int].0@);
            if same_text(self.entries[i].0.as_str(), name) {
                return Some(i);
            }
            i = i + 1;
        }
        None
    }

    /// The value named `name`, if any.
    pub fn get(&self, name: &str) -> (r: Option<&Property>)
        ensures
            match value_of(self@, name@) {
                Some(v) => r matches Some(p) && p@ == v,
                None => r is None,
            },
    {
        match self.find(name) {
            Some(i) => {
                proof {
                    lemma_index_of(self@, name@, i as int);
                }
                Some(&self.entries[i].1)
            },
            None => None,
        }
    }

    /// Binds `name` to `value`: an entry of that name keeps its place and
    /// takes the new value, else a new entry goes at the end.
    pub fn insert(&mut self, name: String, value: Property)
        ensures
            final(self)@ == insert_entry(old(self)@, name@, value@),
            unique_names(old(self)@) ==> unique_names(final(self)@),
    {
        let ghost name_view = name@;
        let ghost value_view = value@;
        match self.find(name.as_str()) {
            Some(i) => {
                proof {
                    lemma_index_of(self@, name_view, i as int);
                }
                self.entries.set(i, (name, value));
                assert(self@ =~= insert_entry(old(self)@, name_view, value_view));
            },
            None => {
                self.entries.push((name, value));
                assert(self@ =~= insert_entry(old(self)@, name_view, value_view));
            },
        }
    }
}

} // verus!
